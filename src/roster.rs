use vstd::prelude::*;

use crate::error::BuddyError;
use crate::person::Person;

verus! {

/// The identifier reserved for the placeholder that evens out an odd roster.
pub const EVENIZER_ID: usize = usize::MAX;

/// The name given to the placeholder participant.
pub open spec fn evenizer_name() -> Seq<char> {
    "EVENIZER"@
}

pub open spec fn is_digit(c: char) -> bool {
    '0' <= c && c <= '9'
}

/// The value of a string of decimal digits.
pub open spec fn digits_value(d: Seq<char>) -> int
    decreases d.len(),
{
    if d.len() == 0 {
        0
    } else {
        digits_value(d.drop_last()) * 10 + (d.last() as int - '0' as int)
    }
}

/// How `usize` reads decimal text: an optional `+`, then one or more ASCII
/// digits whose value fits in `usize`, and nothing else.
pub open spec fn parse_decimal(s: Seq<char>) -> Option<usize> {
    let d = if s.len() > 0 && s[0] == '+' {
        s.drop_first()
    } else {
        s
    };
    if d.len() > 0 && (forall|i: int| 0 <= i < d.len() ==> is_digit(#[trigger] d[i]))
        && digits_value(d) <= usize::MAX {
        Some(digits_value(d) as usize)
    } else {
        None
    }
}

/// Relies on `usize`'s `FromStr`, whose documented grammar `parse_decimal` states.
#[verifier::external_body]
fn parse_id(s: &str) -> (r: Option<usize>)
    ensures
        r == parse_decimal(s@),
{
    s.parse::<usize>().ok()
}

/// The records that `csv` reads from `input` (no header row, default
/// options), each as its fields, up to the first record it fails on; and
/// whether it failed on one.
pub uninterp spec fn csv_records(input: Seq<u8>) -> (Seq<Seq<Seq<char>>>, bool);

/// Relies on `csv::ReaderBuilder` (without a header row) and
/// `csv::Reader::records`: reading stops at the first error, which is handed
/// back beside the records read before it.
#[verifier::external_body]
fn read_records(input: &[u8]) -> (r: (Vec<Vec<String>>, Option<csv::Error>))
    ensures
        r.0.deep_view() == csv_records(input@).0,
        r.1.is_some() == csv_records(input@).1,
{
    let mut reader = csv::ReaderBuilder::new().has_headers(false).from_reader(input);
    let mut rows: Vec<Vec<String>> = Vec::new();
    for record in reader.records() {
        match record {
            Ok(fields) => rows.push(fields.iter().map(String::from).collect()),
            Err(e) => return (rows, Some(e)),
        }
    }
    (rows, None)
}

/// The identifier and name that one record `id,name` gives.
pub open spec fn row_entry(row: Seq<Seq<char>>) -> Result<(usize, Seq<char>), BuddyError> {
    if row.len() == 0 {
        Err(BuddyError::CsvFormatError)
    } else {
        match parse_decimal(row[0]) {
            None => Err(BuddyError::IdNotANumber),
            Some(id) => if row.len() < 2 {
                Err(BuddyError::CsvFormatError)
            } else {
                Ok((id, row[1]))
            },
        }
    }
}

/// The names by identifier that `rows` give when read in order (a later row
/// with the same identifier replaces the name), or the first row's error.
pub open spec fn rows_roster(rows: Seq<Seq<Seq<char>>>) -> Result<Map<usize, Seq<char>>, BuddyError>
    decreases rows.len(),
{
    if rows.len() == 0 {
        Ok(Map::empty())
    } else {
        match rows_roster(rows.drop_last()) {
            Err(e) => Err(e),
            Ok(m) => match row_entry(rows.last()) {
                Err(e) => Err(e),
                Ok(entry) => Ok(m.insert(entry.0, entry.1)),
            },
        }
    }
}

/// The roster that `count` rows giving the names `m` make: an error when
/// identifiers repeat, the placeholder added when the count is odd.
pub open spec fn finish_roster(m: Map<usize, Seq<char>>, count: nat) -> Result<
    (Map<usize, Seq<char>>, bool),
    BuddyError,
> {
    if m.len() != count {
        Err(BuddyError::IdsNotUnique)
    } else if count % 2 != 0 {
        Ok((m.insert(EVENIZER_ID, evenizer_name()), true))
    } else {
        Ok((m, false))
    }
}

/// The roster, with its placeholder flag, that `rows` describe.
pub open spec fn roster_result(rows: Seq<Seq<Seq<char>>>) -> Result<
    (Map<usize, Seq<char>>, bool),
    BuddyError,
> {
    match rows_roster(rows) {
        Err(e) => Err(e),
        Ok(m) => finish_roster(m, rows.len()),
    }
}

/// The number of real participants: the placeholder is not counted.
pub open spec fn real_count(m: Map<usize, Seq<char>>, evenizer: bool) -> nat {
    if evenizer {
        (m.len() - 1) as nat
    } else {
        m.len()
    }
}

/// Everyone to be paired, by identifier.
#[derive(Clone)]
pub struct People {
    people: Vec<Person>,
    evenizer: bool,
    roster: Ghost<Map<usize, Seq<char>>>,
}

impl People {
    /// The name of each participant, the placeholder included.
    pub closed spec fn view(&self) -> Map<usize, Seq<char>> {
        self.roster@
    }

    /// Whether the placeholder was added to make the count even.
    pub closed spec fn evenizer(&self) -> bool {
        self.evenizer
    }

    /// The identifiers in the order the participants were read.
    pub closed spec fn ids(&self) -> Seq<usize> {
        Seq::new(self.people@.len(), |i: int| self.people@[i]@.0)
    }

    pub closed spec fn wf(&self) -> bool {
        let p = self.people@;
        let m = self.roster@;
        &&& m.dom().finite()
        &&& p.len() == m.len()
        &&& forall|i: int|
            0 <= i < p.len() ==> #[trigger] m.contains_key(p[i]@.0) && m[p[i]@.0] == p[i]@.1
        &&& forall|id: usize| #[trigger]
            m.contains_key(id) ==> exists|i: int| 0 <= i < p.len() && p[i]@.0 == id
        &&& forall|i: int, j: int|
            0 <= i < p.len() && 0 <= j < p.len() && i != j ==> #[trigger] p[i]@.0 != #[trigger] p[j]@.0
        &&& self.evenizer ==> m.contains_key(EVENIZER_ID)
    }

    /// The position of participant `id`, if present.
    fn find(&self, id: usize) -> (r: Option<usize>)
        requires
            self.wf(),
        ensures
            match r {
                Some(i) => i < self.people@.len() && self.people@[i as int]@.0 == id,
                None => !self@.contains_key(id),
            },
    {
        let mut i: usize = 0;
        while i < self.people.len()
            invariant
                self.wf(),
                i <= self.people@.len(),
                forall|j: int| 0 <= j < i ==> self.people@[j]@.0 != id,
            decreases self.people@.len() - i,
        {
            if self.people[i].id() == id {
                return Some(i);
            }
            i = i + 1;
        }
        None
    }

    /// Gives `id` the name `name`, adding the participant if it is new.
    fn insert_person(&mut self, id: usize, name: String)
        requires
            old(self).wf(),
        ensures
            final(self).wf(),
            final(self)@ == old(self)@.insert(id, name@),
            final(self).evenizer() == old(self).evenizer(),
    {
        let ghost name_view = name@;
        match self.find(id) {
            Some(i) => {
                let ghost old_people = self.people@;
                self.people.set(i, Person::new(id, name));
                self.roster = Ghost(self.roster@.insert(id, name_view));
                assert forall|k: usize| #[trigger] self.roster@.contains_key(k) implies exists|j: int|
                    0 <= j < self.people@.len() && self.people@[j]@.0 == k by {
                    let j = choose|j: int| 0 <= j < old_people.len() && old_people[j]@.0 == k;
                    assert(self.people@[j]@.0 == k);
                }
            },
            None => {
                let ghost old_people = self.people@;
                self.people.push(Person::new(id, name));
                self.roster = Ghost(self.roster@.insert(id, name_view));
                assert forall|k: usize| #[trigger] self.roster@.contains_key(k) implies exists|j: int|
                    0 <= j < self.people@.len() && self.people@[j]@.0 == k by {
                    if k != id {
                        let j = choose|j: int| 0 <= j < old_people.len() && old_people[j]@.0 == k;
                        assert(self.people@[j]@.0 == k);
                    } else {
                        assert(self.people@[old_people.len() as int]@.0 == k);
                    }
                }
            },
        }
    }

    /// An empty roster.
    pub fn empty() -> (p: People)
        ensures
            p.wf(),
            p@ == Map::<usize, Seq<char>>::empty(),
            !p.evenizer(),
    {
        People { people: Vec::new(), evenizer: false, roster: Ghost(Map::empty()) }
    }
}

/// Once a prefix of the rows fails, the whole of them fails the same way.
proof fn lemma_rows_roster_error_persists(rows: Seq<Seq<Seq<char>>>, i: int)
    requires
        0 <= i <= rows.len(),
        rows_roster(rows.take(i)) is Err,
    ensures
        rows_roster(rows) == rows_roster(rows.take(i)),
    decreases rows.len() - i,
{
    if i < rows.len() {
        assert(rows.take(i + 1).drop_last() =~= rows.take(i));
        lemma_rows_roster_error_persists(rows, i + 1);
    } else {
        assert(rows.take(i) =~= rows);
    }
}

impl People {
    /// Reads the rows in order into a roster, without the checks on the count.
    fn scan_rows(rows: &Vec<Vec<String>>) -> (r: Result<People, BuddyError>)
        ensures
            match r {
                Ok(p) => p.wf() && !p.evenizer() && rows_roster(rows.deep_view()) == Ok::<
                    Map<usize, Seq<char>>,
                    BuddyError,
                >(p@),
                Err(e) => rows_roster(rows.deep_view()) == Err::<Map<usize, Seq<char>>, BuddyError>(e),
            },
    {
        let ghost all = rows.deep_view();
        let mut people = People::empty();
        let mut i: usize = 0;
        assert(all.take(0) =~= Seq::<Seq<Seq<char>>>::empty());
        while i < rows.len()
            invariant
                people.wf(),
                !people.evenizer(),
                i <= rows@.len(),
                all == rows.deep_view(),
                rows_roster(all.take(i as int)) == Ok::<Map<usize, Seq<char>>, BuddyError>(people@),
            decreases rows@.len() - i,
        {
            let row = &rows[i];
            let ghost prefix = all.take(i + 1);
            assert(prefix.drop_last() =~= all.take(i as int));
            assert(prefix.last() == row.deep_view());
            if row.len() == 0 {
                proof {
                    lemma_rows_roster_error_persists(all, i + 1);
                }
                return Err(BuddyError::CsvFormatError);
            }
            assert(row.deep_view()[0] == row@[0]@);
            let id = match parse_id(row[0].as_str()) {
                Some(id) => id,
                None => {
                    proof {
                        lemma_rows_roster_error_persists(all, i + 1);
                    }
                    return Err(BuddyError::IdNotANumber);
                },
            };
            if row.len() < 2 {
                proof {
                    lemma_rows_roster_error_persists(all, i + 1);
                }
                return Err(BuddyError::CsvFormatError);
            }
            assert(row.deep_view()[1] == row@[1]@);
            let name = row[1].clone();
            people.insert_person(id, name);
            i = i + 1;
        }
        assert(all.take(rows@.len() as int) =~= all);
        Ok(people)
    }

    /// Builds a roster from rows of `id,name` fields. Fails with
    /// `CsvFormatError` on a row without both fields, `IdNotANumber` on an
    /// identifier that is not a non-negative integer, and `IdsNotUnique` when
    /// two rows share an identifier. An odd roster gets the placeholder
    /// participant `EVENIZER_ID`.
    pub fn from_rows(rows: &Vec<Vec<String>>) -> (r: Result<People, BuddyError>)
        ensures
            match r {
                Ok(p) => p.wf() && roster_result(rows.deep_view()) == Ok::<
                    (Map<usize, Seq<char>>, bool),
                    BuddyError,
                >((p@, p.evenizer())),
                Err(e) => roster_result(rows.deep_view()) == Err::<
                    (Map<usize, Seq<char>>, bool),
                    BuddyError,
                >(e),
            },
    {
        let scanned = People::scan_rows(rows);
        match scanned {
            Err(e) => Err(e),
            Ok(people) => People::finish(people, rows.len()),
        }
    }

    /// Builds a roster from comma-separated `id,name` records. The rows read
    /// before a record that `csv` cannot read are checked as `from_rows`
    /// checks them; if they pass, that record's failure is `CsvError`.
    pub fn from_csv(input: &[u8]) -> (r: Result<People, BuddyError>)
        ensures
            ({
                let (records, failed) = csv_records(input@);
                match r {
                    Ok(p) => p.wf() && !failed && roster_result(records) == Ok::<
                        (Map<usize, Seq<char>>, bool),
                        BuddyError,
                    >((p@, p.evenizer())),
                    Err(e) => match rows_roster(records) {
                        Err(first) => e == first,
                        Ok(_) => if failed {
                            e is CsvError
                        } else {
                            roster_result(records) == Err::<(Map<usize, Seq<char>>, bool), BuddyError>(e)
                        },
                    },
                }
            }),
    {
        let (rows, failure) = read_records(input);
        match failure {
            None => People::from_rows(&rows),
            Some(e) => match People::scan_rows(&rows) {
                Err(first) => Err(first),
                Ok(_) => Err(BuddyError::CsvError(e)),
            },
        }
    }

    /// Checks that no identifier repeated among `count` rows and evens out
    /// an odd roster.
    fn finish(people: People, count: usize) -> (r: Result<People, BuddyError>)
        requires
            people.wf(),
            !people.evenizer(),
        ensures
            match r {
                Ok(p) => p.wf() && finish_roster(people@, count as nat) == Ok::<
                    (Map<usize, Seq<char>>, bool),
                    BuddyError,
                >((p@, p.evenizer())),
                Err(e) => finish_roster(people@, count as nat) == Err::<
                    (Map<usize, Seq<char>>, bool),
                    BuddyError,
                >(e),
            },
    {
        let mut people = people;
        if people.people.len() != count {
            return Err(BuddyError::IdsNotUnique);
        }
        if count % 2 != 0 {
            people.insert_person(EVENIZER_ID, "EVENIZER".to_owned());
            people.evenizer = true;
        }
        Ok(people)
    }

    /// The number of real participants, not counting the placeholder.
    pub fn len(&self) -> (r: usize)
        requires
            self.wf(),
        ensures
            r == real_count(self@, self.evenizer()),
    {
        if self.has_evenizer() {
            self.people.len() - 1
        } else {
            self.people.len()
        }
    }

    /// Whether the placeholder participant was added to make the count even.
    pub fn has_evenizer(&self) -> (r: bool)
        ensures
            r == self.evenizer(),
    {
        self.evenizer
    }

    pub fn is_empty(&self) -> (r: bool)
        requires
            self.wf(),
        ensures
            r == (real_count(self@, self.evenizer()) == 0),
    {
        self.len() == 0
    }

    /// Every identifier, the placeholder included, each once.
    pub fn as_ids(&self) -> (r: Vec<usize>)
        requires
            self.wf(),
        ensures
            r@ == self.ids(),
            r@.no_duplicates(),
            r@.to_set() == self@.dom(),
            r@.len() == self@.len(),
    {
        let mut ids: Vec<usize> = Vec::new();
        let mut i: usize = 0;
        while i < self.people.len()
            invariant
                self.wf(),
                i <= self.people@.len(),
                ids@ =~= self.ids().take(i as int),
            decreases self.people@.len() - i,
        {
            ids.push(self.people[i].id());
            i = i + 1;
        }
        proof {
            self.lemma_ids();
        }
        assert(self.ids().take(self.people@.len() as int) =~= self.ids());
        ids
    }

    /// The identifiers are distinct and are exactly the roster's.
    pub proof fn lemma_ids(&self)
        requires
            self.wf(),
        ensures
            self.ids().no_duplicates(),
            self.ids().to_set() == self@.dom(),
            self.ids().len() == self@.len(),
    {
        let ids = self.ids();
        assert forall|k: usize| #[trigger] self@.dom().contains(k) implies ids.to_set().contains(k) by {
            let j = choose|j: int| 0 <= j < self.people@.len() && self.people@[j]@.0 == k;
            assert(ids[j] == k);
        }
        assert forall|k: usize| #[trigger] ids.to_set().contains(k) implies self@.dom().contains(k) by {
            let j = choose|j: int| 0 <= j < ids.len() && ids[j] == k;
            assert(self.roster@.contains_key(self.people@[j]@.0));
        }
        assert(ids.to_set() =~= self@.dom());
    }

    /// The name of participant `id`, if present.
    pub fn name_from_id(&self, id: usize) -> (r: Option<String>)
        requires
            self.wf(),
        ensures
            r.is_some() == self@.contains_key(id),
            r.is_some() ==> r->Some_0@ == self@[id],
    {
        match self.find(id) {
            Some(i) => {
                assert(self.roster@.contains_key(self.people@[i as int]@.0));
                Some(self.people[i].name().clone())
            },
            None => None,
        }
    }
}

impl Default for People {
    fn default() -> (p: People)
        ensures
            p.wf(),
            p@ == Map::<usize, Seq<char>>::empty(),
            !p.evenizer(),
    {
        People::empty()
    }
}

/// The names read from rows are finitely many.
pub proof fn lemma_rows_roster_finite(rows: Seq<Seq<Seq<char>>>)
    requires
        rows_roster(rows) is Ok,
    ensures
        rows_roster(rows)->Ok_0.dom().finite(),
    decreases rows.len(),
{
    if rows.len() > 0 {
        lemma_rows_roster_finite(rows.drop_last());
    }
}

/// A roster whose rows give an even number of distinct identifiers gets no
/// placeholder, and its length is that number.
pub proof fn lemma_even_roster(rows: Seq<Seq<Seq<char>>>)
    requires
        roster_result(rows) is Ok,
        rows_roster(rows)->Ok_0.len() % 2 == 0,
    ensures
        !roster_result(rows)->Ok_0.1,
        roster_result(rows)->Ok_0.0 == rows_roster(rows)->Ok_0,
        real_count(roster_result(rows)->Ok_0.0, roster_result(rows)->Ok_0.1) == rows_roster(
            rows,
        )->Ok_0.len(),
{
}

/// A roster whose rows give an odd number of distinct identifiers, none of
/// them the reserved one, gets the placeholder: its identifier is among the
/// roster's, and the length still counts only the real participants.
pub proof fn lemma_odd_roster(rows: Seq<Seq<Seq<char>>>)
    requires
        roster_result(rows) is Ok,
        rows_roster(rows)->Ok_0.len() % 2 == 1,
        !rows_roster(rows)->Ok_0.contains_key(EVENIZER_ID),
    ensures
        roster_result(rows)->Ok_0.1,
        roster_result(rows)->Ok_0.0 == rows_roster(rows)->Ok_0.insert(EVENIZER_ID, evenizer_name()),
        roster_result(rows)->Ok_0.0.contains_key(EVENIZER_ID),
        real_count(roster_result(rows)->Ok_0.0, roster_result(rows)->Ok_0.1) == rows_roster(
            rows,
        )->Ok_0.len(),
{
    lemma_rows_roster_finite(rows);
}

} // verus!
