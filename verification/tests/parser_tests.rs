use vrptw_code::parser::{Client, InputData, Localizable, Repository};

const SAMPLE: &str = "NAME: data101
COMMENT: Solomon-like instance
TYPE: VRPTW
COORDINATES: CARTESIAN
NB_DEPOTS: 1
NB_CLIENTS: 3
MAX_QUANTITY: 200

DATA_DEPOTS [idName x y readyTime dueTime]
d1 40 50 0 240

DATA_CLIENTS [idName x y readyTime dueTime demand service]
c1 45 68 912 967 10 90
c2 45 70 825 870 30 90
c3 42 66 65 146 10 90
";

#[test]
fn parse_sample_header() {
    let data = InputData::parse_input(SAMPLE);
    assert_eq!(data.name, "data101");
    assert_eq!(data.graph_type, "VRPTW");
    assert_eq!(data.coordinates_type, "CARTESIAN");
    assert_eq!(data.repositories_nb, 1);
    assert_eq!(data.clients_nb, 3);
    assert_eq!(data.max_quantity, 200);
}

#[test]
fn parse_sample_depots_and_clients() {
    let data = InputData::parse_input(SAMPLE);
    assert_eq!(data.repositories.len(), 1);
    let d = &data.repositories[0];
    assert_eq!(d.id, "d1");
    assert_eq!((d.x, d.y, d.ready_time, d.due_time), (40, 50, 0, 240));
    assert_eq!(data.clients.len(), 3);
    let c = &data.clients[1];
    assert_eq!(c.id, "c2");
    assert_eq!((c.x, c.y), (45, 70));
    assert_eq!((c.ready_time, c.due_time, c.demand, c.service), (825, 870, 30, 90));
    assert_eq!(data.clients[2].id, "c3");
    assert_eq!(data.clients[2].ready_time, 65);
}

#[test]
fn parse_empty_input() {
    let data = InputData::parse_input("");
    assert_eq!(data.name, "");
    assert_eq!(data.max_quantity, 0);
    assert!(data.repositories.is_empty());
    assert!(data.clients.is_empty());
}

#[test]
fn parse_crlf_and_spaces() {
    let text = "  NAME :  small one  \r\nMAX_QUANTITY:\t15\r\n\r\n   DATA_DEPOTS\r\n  d 1 2 3 4  \r\nDATA_CLIENTS\r\n c 5 6 7 8 9 10\r\n";
    let data = InputData::parse_input(text);
    assert_eq!(data.name, "small one");
    assert_eq!(data.max_quantity, 15);
    assert_eq!(data.repositories.len(), 1);
    assert_eq!(data.repositories[0].id, "d");
    assert_eq!(data.repositories[0].due_time, 4);
    assert_eq!(data.clients.len(), 1);
    assert_eq!(data.clients[0].service, 10);
}

#[test]
fn parse_bad_numbers_count_as_zero() {
    let text = "NB_CLIENTS: x12\nNB_DEPOTS: +7\nMAX_QUANTITY: 4294967296\nDATA_DEPOTS\nd -1 4294967295 ab 5\n";
    let data = InputData::parse_input(text);
    assert_eq!(data.clients_nb, 0);
    assert_eq!(data.repositories_nb, 7);
    assert_eq!(data.max_quantity, 0);
    let d = &data.repositories[0];
    assert_eq!(d.x, 0);
    assert_eq!(d.y, 4294967295);
    assert_eq!(d.ready_time, 0);
    assert_eq!(d.due_time, 5);
}

#[test]
fn parse_skips_short_lines_and_unknown_keys() {
    let text = "FOO: bar\nno colon here\nNAME: kept\nDATA_DEPOTS\nd 1 2 3\nDATA_CLIENTS\nc 1 2 3 4 5\nc9 1 2 3 4 5 6 extra\n";
    let data = InputData::parse_input(text);
    assert_eq!(data.name, "kept");
    assert!(data.repositories.is_empty());
    assert_eq!(data.clients.len(), 1);
    assert_eq!(data.clients[0].id, "c9");
    assert_eq!(data.clients[0].service, 6);
}

#[test]
fn parse_header_after_sections_is_data() {
    // Once in a data section, a `KEY: value` line is read as data.
    let text = "DATA_CLIENTS\nNAME: late\nDATA_DEPOTSX 1 2 3 4\n";
    let data = InputData::parse_input(text);
    assert_eq!(data.name, "");
    assert!(data.clients.is_empty());
    assert!(data.repositories.is_empty());
}

#[test]
fn parse_value_keeps_colons_after_the_first() {
    let data = InputData::parse_input("NAME: a:b : c\n");
    assert_eq!(data.name, "a:b : c");
}

#[test]
fn localizable_coords_and_id() {
    let r = Repository { id: "depot".to_string(), x: 3, y: 4, ready_time: 0, due_time: 9 };
    let c = Client { id: "c1".to_string(), x: 7, y: 8, ready_time: 1, due_time: 2, demand: 3, service: 4 };
    assert_eq!(r.coords(), (3, 4));
    assert_eq!(r.id(), "depot");
    assert_eq!(c.coords(), (7, 8));
    assert_eq!(c.id(), "c1");
}

#[test]
fn input_data_new_keeps_fields() {
    let d = InputData::new(
        "n".to_string(),
        "t".to_string(),
        "c".to_string(),
        1,
        2,
        3,
        vec![Repository { id: "d".to_string(), x: 0, y: 0, ready_time: 0, due_time: 0 }],
        vec![],
    );
    assert_eq!(d.name, "n");
    assert_eq!(d.graph_type, "t");
    assert_eq!(d.coordinates_type, "c");
    assert_eq!((d.repositories_nb, d.clients_nb, d.max_quantity), (1, 2, 3));
    assert_eq!(d.repositories.len(), 1);
    assert!(d.clients.is_empty());
}

fn same_data(a: &InputData, b: &InputData) -> bool {
    format!("{:?}", a) == format!("{:?}", b)
}

#[test]
fn parse_ignores_crlf_blank_lines_and_surrounding_space() {
    let base = InputData::parse_input(SAMPLE);
    let crlf = SAMPLE.replace("\n", "\r\n");
    assert!(same_data(&InputData::parse_input(&crlf), &base));
    let padded: String = SAMPLE.lines().map(|l| format!(" \t{}\t  \n", l)).collect();
    assert!(same_data(&InputData::parse_input(&padded), &base));
    let blanks: String = SAMPLE.lines().map(|l| format!("{}\n   \n\t\n", l)).collect();
    assert!(same_data(&InputData::parse_input(&blanks), &base));
}
