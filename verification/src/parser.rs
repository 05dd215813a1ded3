//! Instance files: depots and clients with coordinates, time windows,
//! demands and service times, read from the text format
//!
//! ```text
//! NAME: ...
//! NB_DEPOTS: 1
//! MAX_QUANTITY: 200
//! DATA_DEPOTS
//! d1 40 50 0 240
//! DATA_CLIENTS
//! c1 45 68 912 967 10 90
//! ```
use vstd::prelude::*;

use crate::text::{
    chars_of, find_char, line_ranges, lines, parse_u32_or_zero, parse_u32_range, range_eq,
    range_starts_with, split_once, starts_with, substring, trim, trim_range, word_ranges, words,
};
use crate::Int;

verus! {

/// Something placed on the map.
pub trait Localizable {
    fn coords(&self) -> (Int, Int);

    fn id(&self) -> &str;
}

/// A depot: where every route starts and ends.
#[derive(Debug, Clone)]
pub struct Repository {
    pub id: String,
    pub x: Int,
    pub y: Int,
    pub ready_time: Int,
    pub due_time: Int,
}

/// A client to be served once, with its demand and service time.
#[derive(Debug, Clone)]
pub struct Client {
    pub id: String,
    pub x: Int,
    pub y: Int,
    pub ready_time: Int,
    pub due_time: Int,
    pub demand: Int,
    pub service: Int,
}

/// The content of an instance file.
#[derive(Debug)]
pub struct InputData {
    pub name: String,
    pub graph_type: String,
    pub coordinates_type: String,
    pub repositories_nb: Int,
    pub clients_nb: Int,
    pub max_quantity: Int,
    pub repositories: Vec<Repository>,
    pub clients: Vec<Client>,
}

pub struct RepositoryView {
    pub id: Seq<char>,
    pub x: Int,
    pub y: Int,
    pub ready_time: Int,
    pub due_time: Int,
}

pub struct ClientView {
    pub id: Seq<char>,
    pub x: Int,
    pub y: Int,
    pub ready_time: Int,
    pub due_time: Int,
    pub demand: Int,
    pub service: Int,
}

pub struct InputDataView {
    pub name: Seq<char>,
    pub graph_type: Seq<char>,
    pub coordinates_type: Seq<char>,
    pub repositories_nb: Int,
    pub clients_nb: Int,
    pub max_quantity: Int,
    pub repositories: Seq<RepositoryView>,
    pub clients: Seq<ClientView>,
}

impl View for Repository {
    type V = RepositoryView;

    open spec fn view(&self) -> RepositoryView {
        RepositoryView {
            id: self.id@,
            x: self.x,
            y: self.y,
            ready_time: self.ready_time,
            due_time: self.due_time,
        }
    }
}

impl View for Client {
    type V = ClientView;

    open spec fn view(&self) -> ClientView {
        ClientView {
            id: self.id@,
            x: self.x,
            y: self.y,
            ready_time: self.ready_time,
            due_time: self.due_time,
            demand: self.demand,
            service: self.service,
        }
    }
}

impl View for InputData {
    type V = InputDataView;

    open spec fn view(&self) -> InputDataView {
        InputDataView {
            name: self.name@,
            graph_type: self.graph_type@,
            coordinates_type: self.coordinates_type@,
            repositories_nb: self.repositories_nb,
            clients_nb: self.clients_nb,
            max_quantity: self.max_quantity,
            repositories: self.repositories@.map_values(|r: Repository| r@),
            clients: self.clients@.map_values(|c: Client| c@),
        }
    }
}

impl Localizable for Repository {
    fn coords(&self) -> (r: (Int, Int))
        ensures
            r == (self.x, self.y),
    {
        (self.x, self.y)
    }

    fn id(&self) -> (r: &str)
        ensures
            r@ == self.id@,
    {
        self.id.as_str()
    }
}

impl Localizable for Client {
    fn coords(&self) -> (r: (Int, Int))
        ensures
            r == (self.x, self.y),
    {
        (self.x, self.y)
    }

    fn id(&self) -> (r: &str)
        ensures
            r@ == self.id@,
    {
        self.id.as_str()
    }
}

/// The part of the file being read.
#[derive(PartialEq, Eq, Structural, Clone, Copy, Debug)]
pub enum Section {
    Header,
    Depots,
    Clients,
}

pub open spec fn kw_data_depots() -> Seq<char> {
    seq!['D', 'A', 'T', 'A', '_', 'D', 'E', 'P', 'O', 'T', 'S']
}

pub open spec fn kw_data_clients() -> Seq<char> {
    seq!['D', 'A', 'T', 'A', '_', 'C', 'L', 'I', 'E', 'N', 'T', 'S']
}

pub open spec fn kw_name() -> Seq<char> {
    seq!['N', 'A', 'M', 'E']
}

pub open spec fn kw_type() -> Seq<char> {
    seq!['T', 'Y', 'P', 'E']
}

pub open spec fn kw_coordinates() -> Seq<char> {
    seq!['C', 'O', 'O', 'R', 'D', 'I', 'N', 'A', 'T', 'E', 'S']
}

pub open spec fn kw_nb_depots() -> Seq<char> {
    seq!['N', 'B', '_', 'D', 'E', 'P', 'O', 'T', 'S']
}

pub open spec fn kw_nb_clients() -> Seq<char> {
    seq!['N', 'B', '_', 'C', 'L', 'I', 'E', 'N', 'T', 'S']
}

pub open spec fn kw_max_quantity() -> Seq<char> {
    seq!['M', 'A', 'X', '_', 'Q', 'U', 'A', 'N', 'T', 'I', 'T', 'Y']
}

/// The data before any line has been read.
pub open spec fn empty_input() -> InputDataView {
    InputDataView {
        name: seq![],
        graph_type: seq![],
        coordinates_type: seq![],
        repositories_nb: 0,
        clients_nb: 0,
        max_quantity: 0,
        repositories: seq![],
        clients: seq![],
    }
}

/// A `KEY: value` header line: the key and the value, both trimmed, set the
/// field that the key names; other lines and keys leave the data as it is.
pub open spec fn header_step(d: InputDataView, line: Seq<char>) -> InputDataView {
    match split_once(line, ':') {
        None => d,
        Some((k, v)) => {
            let key = trim(k);
            let value = trim(v);
            if key == kw_name() {
                InputDataView { name: value, ..d }
            } else if key == kw_type() {
                InputDataView { graph_type: value, ..d }
            } else if key == kw_coordinates() {
                InputDataView { coordinates_type: value, ..d }
            } else if key == kw_nb_depots() {
                InputDataView { repositories_nb: parse_u32_or_zero(value), ..d }
            } else if key == kw_nb_clients() {
                InputDataView { clients_nb: parse_u32_or_zero(value), ..d }
            } else if key == kw_max_quantity() {
                InputDataView { max_quantity: parse_u32_or_zero(value), ..d }
            } else {
                d
            }
        },
    }
}

/// A depot line `id x y ready due` (at least five words) adds a depot.
pub open spec fn depot_step(d: InputDataView, line: Seq<char>) -> InputDataView {
    let w = words(line);
    if w.len() >= 5 {
        InputDataView {
            repositories: d.repositories.push(
                RepositoryView {
                    id: w[0],
                    x: parse_u32_or_zero(w[1]),
                    y: parse_u32_or_zero(w[2]),
                    ready_time: parse_u32_or_zero(w[3]),
                    due_time: parse_u32_or_zero(w[4]),
                },
            ),
            ..d
        }
    } else {
        d
    }
}

/// A client line `id x y ready due demand service` (at least seven words)
/// adds a client.
pub open spec fn client_step(d: InputDataView, line: Seq<char>) -> InputDataView {
    let w = words(line);
    if w.len() >= 7 {
        InputDataView {
            clients: d.clients.push(
                ClientView {
                    id: w[0],
                    x: parse_u32_or_zero(w[1]),
                    y: parse_u32_or_zero(w[2]),
                    ready_time: parse_u32_or_zero(w[3]),
                    due_time: parse_u32_or_zero(w[4]),
                    demand: parse_u32_or_zero(w[5]),
                    service: parse_u32_or_zero(w[6]),
                },
            ),
            ..d
        }
    } else {
        d
    }
}

/// One line of the file: blank lines are skipped, `DATA_DEPOTS` and
/// `DATA_CLIENTS` open their section, any other line is read as the current
/// section says.
pub open spec fn parse_step(st: (Section, InputDataView), raw: Seq<char>) -> (
    Section,
    InputDataView,
) {
    let line = trim(raw);
    if line.len() == 0 {
        st
    } else if starts_with(line, kw_data_depots()) {
        (Section::Depots, st.1)
    } else if starts_with(line, kw_data_clients()) {
        (Section::Clients, st.1)
    } else {
        match st.0 {
            Section::Header => (Section::Header, header_step(st.1, line)),
            Section::Depots => (Section::Depots, depot_step(st.1, line)),
            Section::Clients => (Section::Clients, client_step(st.1, line)),
        }
    }
}

/// The lines read one after the other, from the header section.
pub open spec fn parse_lines(ls: Seq<Seq<char>>) -> (Section, InputDataView)
    decreases ls.len(),
{
    if ls.len() == 0 {
        (Section::Header, empty_input())
    } else {
        parse_step(parse_lines(ls.drop_last()), ls.last())
    }
}

/// What a file with text `s` describes.
pub open spec fn parse_input_spec(s: Seq<char>) -> InputDataView {
    parse_lines(lines(s)).1
}

/// The keywords of the format, as characters.
struct Keywords {
    data_depots: Vec<char>,
    data_clients: Vec<char>,
    name: Vec<char>,
    type_: Vec<char>,
    coordinates: Vec<char>,
    nb_depots: Vec<char>,
    nb_clients: Vec<char>,
    max_quantity: Vec<char>,
}

impl Keywords {
    spec fn wf(&self) -> bool {
        &&& self.data_depots@ == kw_data_depots()
        &&& self.data_clients@ == kw_data_clients()
        &&& self.name@ == kw_name()
        &&& self.type_@ == kw_type()
        &&& self.coordinates@ == kw_coordinates()
        &&& self.nb_depots@ == kw_nb_depots()
        &&& self.nb_clients@ == kw_nb_clients()
        &&& self.max_quantity@ == kw_max_quantity()
    }

    fn new() -> (r: Keywords)
        ensures
            r.wf(),
    {
        let r = Keywords {
            data_depots: vec!['D', 'A', 'T', 'A', '_', 'D', 'E', 'P', 'O', 'T', 'S'],
            data_clients: vec!['D', 'A', 'T', 'A', '_', 'C', 'L', 'I', 'E', 'N', 'T', 'S'],
            name: vec!['N', 'A', 'M', 'E'],
            type_: vec!['T', 'Y', 'P', 'E'],
            coordinates: vec!['C', 'O', 'O', 'R', 'D', 'I', 'N', 'A', 'T', 'E', 'S'],
            nb_depots: vec!['N', 'B', '_', 'D', 'E', 'P', 'O', 'T', 'S'],
            nb_clients: vec!['N', 'B', '_', 'C', 'L', 'I', 'E', 'N', 'T', 'S'],
            max_quantity: vec!['M', 'A', 'X', '_', 'Q', 'U', 'A', 'N', 'T', 'I', 'T', 'Y'],
        };
        assert(r.data_depots@ =~= kw_data_depots());
        assert(r.data_clients@ =~= kw_data_clients());
        assert(r.name@ =~= kw_name());
        assert(r.type_@ =~= kw_type());
        assert(r.coordinates@ =~= kw_coordinates());
        assert(r.nb_depots@ =~= kw_nb_depots());
        assert(r.nb_clients@ =~= kw_nb_clients());
        assert(r.max_quantity@ =~= kw_max_quantity());
        r
    }
}

/// `parse_u32_or_zero` of `v[a..b]`.
fn number_at(v: &Vec<char>, a: usize, b: usize) -> (r: Int)
    requires
        a <= b <= v@.len(),
    ensures
        r == parse_u32_or_zero(v@.subrange(a as int, b as int)),
{
    match parse_u32_range(v, a, b) {
        Some(x) => x,
        None => 0,
    }
}

impl InputData {
    pub fn new(
        name: String,
        graph_type: String,
        coordinates_type: String,
        repositories_nb: Int,
        clients_nb: Int,
        max_quantity: Int,
        repositories: Vec<Repository>,
        clients: Vec<Client>,
    ) -> (r: Self)
        ensures
            r.name == name,
            r.graph_type == graph_type,
            r.coordinates_type == coordinates_type,
            r.repositories_nb == repositories_nb,
            r.clients_nb == clients_nb,
            r.max_quantity == max_quantity,
            r.repositories == repositories,
            r.clients == clients,
    {
        InputData {
            name,
            graph_type,
            coordinates_type,
            repositories_nb,
            clients_nb,
            max_quantity,
            repositories,
            clients,
        }
    }

    /// Reads the header line `v[a..b]` (already trimmed, not blank).
    fn read_header(&mut self, input: &str, v: &Vec<char>, kw: &Keywords, a: usize, b: usize)
        requires
            v@ == input@,
            kw.wf(),
            a <= b <= v@.len(),
        ensures
            final(self)@ == header_step(old(self)@, v@.subrange(a as int, b as int)),
    {
        let ghost line = v@.subrange(a as int, b as int);
        match find_char(v, a, b, ':') {
            None => {},
            Some(k) => {
                let c = a + k;
                assert(line.take(k as int) =~= v@.subrange(a as int, c as int));
                assert(line.skip(k + 1) =~= v@.subrange(c + 1, b as int));
                let (ka, kb) = trim_range(v, a, c);
                let (va, vb) = trim_range(v, c + 1, b);
                if range_eq(v, ka, kb, &kw.name) {
                    self.name = substring(input, va, vb);
                } else if range_eq(v, ka, kb, &kw.type_) {
                    self.graph_type = substring(input, va, vb);
                } else if range_eq(v, ka, kb, &kw.coordinates) {
                    self.coordinates_type = substring(input, va, vb);
                } else if range_eq(v, ka, kb, &kw.nb_depots) {
                    self.repositories_nb = number_at(v, va, vb);
                } else if range_eq(v, ka, kb, &kw.nb_clients) {
                    self.clients_nb = number_at(v, va, vb);
                } else if range_eq(v, ka, kb, &kw.max_quantity) {
                    self.max_quantity = number_at(v, va, vb);
                }
                assert(final(self)@.repositories =~= old(self)@.repositories);
                assert(final(self)@.clients =~= old(self)@.clients);
            },
        }
    }

    /// Reads the depot line `v[a..b]`.
    fn read_depot(&mut self, input: &str, v: &Vec<char>, a: usize, b: usize)
        requires
            v@ == input@,
            a <= b <= v@.len(),
        ensures
            final(self)@ == depot_step(old(self)@, v@.subrange(a as int, b as int)),
    {
        let w = word_ranges(v, a, b);
        if w.len() >= 5 {
            let r = Repository {
                id: substring(input, w[0].0, w[0].1),
                x: number_at(v, w[1].0, w[1].1),
                y: number_at(v, w[2].0, w[2].1),
                ready_time: number_at(v, w[3].0, w[3].1),
                due_time: number_at(v, w[4].0, w[4].1),
            };
            self.repositories.push(r);
            assert(final(self)@.repositories =~= old(self)@.repositories.push(r@));
            assert(final(self)@.clients =~= old(self)@.clients);
        }
    }

    /// Reads the client line `v[a..b]`.
    fn read_client(&mut self, input: &str, v: &Vec<char>, a: usize, b: usize)
        requires
            v@ == input@,
            a <= b <= v@.len(),
        ensures
            final(self)@ == client_step(old(self)@, v@.subrange(a as int, b as int)),
    {
        let w = word_ranges(v, a, b);
        if w.len() >= 7 {
            let c = Client {
                id: substring(input, w[0].0, w[0].1),
                x: number_at(v, w[1].0, w[1].1),
                y: number_at(v, w[2].0, w[2].1),
                ready_time: number_at(v, w[3].0, w[3].1),
                due_time: number_at(v, w[4].0, w[4].1),
                demand: number_at(v, w[5].0, w[5].1),
                service: number_at(v, w[6].0, w[6].1),
            };
            self.clients.push(c);
            assert(final(self)@.clients =~= old(self)@.clients.push(c@));
            assert(final(self)@.repositories =~= old(self)@.repositories);
        }
    }

    /// Reads the text of an instance file. Blank lines, header lines without
    /// `:` or with an unknown key, and data lines with too few words are
    /// skipped; a number that cannot be read counts as 0.
    pub fn parse_input(input: &str) -> (r: Self)
        ensures
            r@ == parse_input_spec(input@),
    {
        let v = chars_of(input);
        let kw = Keywords::new();
        let ls = line_ranges(&v);
        let mut data = InputData {
            name: String::new(),
            graph_type: String::new(),
            coordinates_type: String::new(),
            repositories_nb: 0,
            clients_nb: 0,
            max_quantity: 0,
            repositories: Vec::new(),
            clients: Vec::new(),
        };
        let mut section = Section::Header;
        assert(data@.repositories =~= empty_input().repositories);
        assert(data@.clients =~= empty_input().clients);
        assert(data@.name =~= empty_input().name);
        let ghost all = lines(v@);
        let mut i: usize = 0;
        while i < ls.len()
            invariant
                v@ == input@,
                kw.wf(),
                all == lines(v@),
                i <= ls@.len(),
                ls@.len() == all.len(),
                forall|k: int|
                    0 <= k < ls@.len() ==> (#[trigger] ls@[k]).0 <= ls@[k].1 <= v@.len()
                        && v@.subrange(ls@[k].0 as int, ls@[k].1 as int) == all[k],
                (section, data@) == parse_lines(all.take(i as int)),
            decreases ls@.len() - i,
        {
            let (la, lb) = ls[i];
            let ghost before = (section, data@);
            assert(all.take(i + 1).drop_last() =~= all.take(i as int));
            let (a, b) = trim_range(&v, la, lb);
            if a == b {
            } else if range_starts_with(&v, a, b, &kw.data_depots) {
                section = Section::Depots;
            } else if range_starts_with(&v, a, b, &kw.data_clients) {
                section = Section::Clients;
            } else {
                match section {
                    Section::Header => data.read_header(input, &v, &kw, a, b),
                    Section::Depots => data.read_depot(input, &v, a, b),
                    Section::Clients => data.read_client(input, &v, a, b),
                }
            }
            assert((section, data@) == parse_step(before, all[i as int]));
            i = i + 1;
        }
        assert(all.take(ls@.len() as int) =~= all);
        data
    }
}

} // verus!
