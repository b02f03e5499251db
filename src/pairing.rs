use vstd::prelude::*;

use crate::error::BuddyError;
use crate::history::{key_of, prior, History, PairKey};
use crate::person::Person;
use crate::roster::{People, EVENIZER_ID};

verus! {

/// The cost of the first `n` pairs of `genes` taken two at a time: the sum of
/// their scores, an unseen pair costing nothing.
pub open spec fn chunk_cost(genes: Seq<usize>, scores: Map<PairKey, usize>, n: nat) -> nat
    decreases n,
{
    if n == 0 {
        0
    } else {
        chunk_cost(genes, scores, (n - 1) as nat) + prior(
            scores,
            key_of(genes[2 * (n - 1)], genes[2 * (n - 1) + 1]),
        )
    }
}

/// The cost of matching `genes` two at a time; lower is better.
pub open spec fn fitness_of(genes: Seq<usize>, scores: Map<PairKey, usize>) -> nat {
    chunk_cost(genes, scores, genes.len() / 2)
}

/// Whether `genes` lists every participant of `roster` exactly once, in
/// an even number of places.
pub open spec fn is_ordering_of(genes: Seq<usize>, roster: Map<usize, Seq<char>>) -> bool {
    &&& genes.len() % 2 == 0
    &&& genes.len() == roster.len()
    &&& genes.no_duplicates()
    &&& forall|i: int| 0 <= i < genes.len() ==> roster.contains_key(#[trigger] genes[i])
}

/// The participants that `genes` pair up, two at a time, with their names.
pub open spec fn matching_of(genes: Seq<usize>, roster: Map<usize, Seq<char>>) -> Seq<
    ((usize, Seq<char>), (usize, Seq<char>)),
> {
    Seq::new(
        genes.len() / 2,
        |i: int| ((genes[2 * i], roster[genes[2 * i]]), (genes[2 * i + 1], roster[genes[2 * i + 1]])),
    )
}

/// Everyone named in `pairs`, in order, two per pair.
pub open spec fn members(pairs: Seq<((usize, Seq<char>), (usize, Seq<char>))>) -> Seq<usize> {
    Seq::new(
        2 * pairs.len(),
        |j: int|
            if j % 2 == 0 {
                pairs[j / 2].0.0
            } else {
                pairs[j / 2].1.0
            },
    )
}

/// Whether `pairs` is a perfect matching of `roster`: every participant
/// appears in exactly one pair, under their own name.
pub open spec fn is_perfect_matching(
    pairs: Seq<((usize, Seq<char>), (usize, Seq<char>))>,
    roster: Map<usize, Seq<char>>,
) -> bool {
    &&& members(pairs).no_duplicates()
    &&& members(pairs).to_set() == roster.dom()
    &&& 2 * pairs.len() == roster.len()
    &&& forall|i: int|
        0 <= i < pairs.len() ==> roster[#[trigger] pairs[i].0.0] == pairs[i].0.1 && roster[pairs[i].1.0]
            == pairs[i].1.1
}

/// The score of a candidate matching of the roster: the sum of the history
/// scores of its pairs, taken two at a time, or `None` when the sum does
/// not fit in `isize`.
pub fn pair_fitness(genes: &Vec<usize>, last: &History) -> (r: Option<isize>)
    requires
        last.wf(),
        genes@.len() % 2 == 0,
    ensures
        r == (if fitness_of(genes@, last@) <= isize::MAX {
            Some(fitness_of(genes@, last@) as isize)
        } else {
            None::<isize>
        }),
{
    let len = genes.len();
    let half = len / 2;
    let mut score: isize = 0;
    let mut n: usize = 0;
    while n < half
        invariant
            last.wf(),
            len == genes@.len(),
            half == genes@.len() / 2,
            n <= half,
            score == chunk_cost(genes@, last@, n as nat),
        decreases half - n,
    {
        assert(2 * n + 1 < genes@.len()) by (nonlinear_arith)
            requires
                n < half,
                half == genes@.len() / 2,
        ;
        let a = genes[2 * n];
        let b = genes[2 * n + 1];
        let seen = match last.get((a, b)) {
            Some(x) => x,
            None => 0,
        };
        assert(seen == prior(last@, key_of(a, b)));
        assert(chunk_cost(genes@, last@, (n + 1) as nat) == score + seen);
        proof {
            lemma_chunk_cost_monotone(genes@, last@, (n + 1) as nat, half as nat);
        }
        if seen > isize::MAX as usize {
            return None;
        }
        score = match score.checked_add(seen as isize) {
            Some(v) => v,
            None => {
                return None;
            },
        };
        n = n + 1;
    }
    Some(score)
}

/// Costs only grow as more pairs are counted.
pub proof fn lemma_chunk_cost_monotone(genes: Seq<usize>, scores: Map<PairKey, usize>, a: nat, b: nat)
    requires
        a <= b,
    ensures
        chunk_cost(genes, scores, a) <= chunk_cost(genes, scores, b),
    decreases b,
{
    if a < b {
        lemma_chunk_cost_monotone(genes, scores, a, (b - 1) as nat);
    }
}

/// The rows of names to show for `pairs`, leaving out any pair with the
/// placeholder, and the participant last found paired with the placeholder.
pub open spec fn table_split(pairs: Seq<((usize, Seq<char>), (usize, Seq<char>))>) -> (
    Seq<(Seq<char>, Seq<char>)>,
    Option<(usize, Seq<char>)>,
)
    decreases pairs.len(),
{
    if pairs.len() == 0 {
        (seq![], None)
    } else {
        let (rows, unpaired) = table_split(pairs.drop_last());
        let p = pairs.last();
        if p.1.0 == EVENIZER_ID {
            (rows, Some(p.0))
        } else if p.0.0 == EVENIZER_ID {
            (rows, Some(p.1))
        } else {
            (rows.push((p.0.1, p.1.1)), unpaired)
        }
    }
}

/// The text of a two-column table with one line per row.
pub uninterp spec fn table_text(rows: Seq<(Seq<char>, Seq<char>)>) -> Seq<char>;

/// Relies on `comfy_table::Table`: with styling off (`force_no_tty`) and no
/// content arrangement, its text depends on the rows alone.
#[verifier::external_body]
fn render_rows(rows: &Vec<(String, String)>) -> (r: String)
    ensures
        r@ == table_text(rows.deep_view()),
{
    let mut table = comfy_table::Table::new();
    table.force_no_tty();
    for (a, b) in rows {
        table.add_row(vec![a.clone(), b.clone()]);
    }
    table.to_string()
}

/// A matching: the pairs of participants, in order.
pub struct Pairs(Vec<(Person, Person)>);

impl View for Pairs {
    type V = Seq<((usize, Seq<char>), (usize, Seq<char>))>;

    closed spec fn view(&self) -> Seq<((usize, Seq<char>), (usize, Seq<char>))> {
        Seq::new(self.0@.len(), |i: int| (self.0@[i].0@, self.0@[i].1@))
    }
}

impl Pairs {
    /// Decodes the outcome of a search: `genes` taken two at a time, each
    /// identifier with its name. Fails with `SearchInvariantViolation` when
    /// `genes` is not an ordering of the whole roster.
    pub fn from_genes(people: &People, genes: &Vec<usize>) -> (r: Result<Pairs, BuddyError>)
        requires
            people.wf(),
        ensures
            match r {
                Ok(p) => is_ordering_of(genes@, people@) && p@ == matching_of(genes@, people@),
                Err(e) => !is_ordering_of(genes@, people@) && e is SearchInvariantViolation,
            },
    {
        let ids = people.as_ids();
        if genes.len() % 2 != 0 || genes.len() != ids.len() {
            return Err(BuddyError::SearchInvariantViolation);
        }
        let mut i: usize = 0;
        while i < genes.len()
            invariant
                i <= genes@.len(),
                forall|a: int, b: int| 0 <= a < b < i ==> genes@[a] != genes@[b],
            decreases genes@.len() - i,
        {
            let mut j: usize = 0;
            while j < i
                invariant
                    i < genes@.len(),
                    j <= i,
                    forall|a: int| 0 <= a < j ==> genes@[a] != genes@[i as int],
                decreases i - j,
            {
                if genes[j] == genes[i] {
                    return Err(BuddyError::SearchInvariantViolation);
                }
                j = j + 1;
            }
            i = i + 1;
        }
        let len = genes.len();
        let half = len / 2;
        let mut pairs: Vec<(Person, Person)> = Vec::new();
        let mut n: usize = 0;
        while n < half
            invariant
                people.wf(),
                len == genes@.len(),
                half == genes@.len() / 2,
                genes@.len() % 2 == 0,
                n <= half,
                pairs@.len() == n,
                forall|a: int| 0 <= a < 2 * n ==> people@.contains_key(#[trigger] genes@[a]),
                forall|a: int|
                    0 <= a < n ==> (#[trigger] pairs@[a]).0@ == (genes@[2 * a], people@[genes@[2 * a]])
                        && pairs@[a].1@ == (genes@[2 * a + 1], people@[genes@[2 * a + 1]]),
            decreases half - n,
        {
            assert(2 * n + 1 < genes@.len()) by (nonlinear_arith)
                requires
                    n < half,
                    half == genes@.len() / 2,
            ;
            let a = genes[2 * n];
            let b = genes[2 * n + 1];
            let name_a = match people.name_from_id(a) {
                Some(x) => x,
                None => {
                    return Err(BuddyError::SearchInvariantViolation);
                },
            };
            let name_b = match people.name_from_id(b) {
                Some(x) => x,
                None => {
                    return Err(BuddyError::SearchInvariantViolation);
                },
            };
            pairs.push((Person::new(a, name_a), Person::new(b, name_b)));
            n = n + 1;
        }
        let r = Pairs(pairs);
        assert(r@ =~= matching_of(genes@, people@));
        Ok(r)
    }

    /// The names of each pair to show, without the pairs that hold the
    /// placeholder, and the participant who was paired with it, if any.
    pub fn split_unpaired(&self) -> (r: (Vec<(String, String)>, Option<Person>))
        ensures
            r.0.deep_view() == table_split(self@).0,
            match r.1 {
                Some(p) => table_split(self@).1 == Some(p@),
                None => table_split(self@).1 is None,
            },
    {
        let mut rows: Vec<(String, String)> = Vec::new();
        let mut unpaired: Option<Person> = None;
        let mut i: usize = 0;
        while i < self.0.len()
            invariant
                i <= self@.len(),
                rows.deep_view() == table_split(self@.take(i as int)).0,
                match unpaired {
                    Some(p) => table_split(self@.take(i as int)).1 == Some(p@),
                    None => table_split(self@.take(i as int)).1 is None,
                },
            decreases self@.len() - i,
        {
            let pair = &self.0[i];
            let ghost prefix = self@.take(i + 1);
            assert(prefix.drop_last() =~= self@.take(i as int));
            assert(prefix.last() == (pair.0@, pair.1@));
            let first = &pair.0;
            let second = &pair.1;
            if second.id() == EVENIZER_ID {
                unpaired = Some(Person::new(first.id(), first.name().clone()));
            } else if first.id() == EVENIZER_ID {
                unpaired = Some(Person::new(second.id(), second.name().clone()));
            } else {
                let ghost before = rows.deep_view();
                rows.push((first.name().clone(), second.name().clone()));
                assert(rows.deep_view() =~= before.push((first@.1, second@.1)));
            }
            i = i + 1;
        }
        assert(self@.take(self@.len() as int) =~= self@);
        (rows, unpaired)
    }

    /// The table of pairs to show, without the placeholder, and the
    /// participant left unpaired, if any.
    pub fn table(&self) -> (r: (String, Option<Person>))
        ensures
            r.0@ == table_text(table_split(self@).0),
            match r.1 {
                Some(p) => table_split(self@).1 == Some(p@),
                None => table_split(self@).1 is None,
            },
    {
        let (rows, unpaired) = self.split_unpaired();
        (render_rows(&rows), unpaired)
    }

    /// The pairs, in order.
    pub fn inner(self) -> (r: Vec<(Person, Person)>)
        ensures
            r@.len() == self@.len(),
            forall|i: int| 0 <= i < r@.len() ==> (#[trigger] r@[i].0@, r@[i].1@) == self@[i],
    {
        self.0
    }
}

/// With no history every pair is new, so every candidate costs nothing.
pub proof fn lemma_chunk_cost_without_history(genes: Seq<usize>, n: nat)
    ensures
        chunk_cost(genes, Map::empty(), n) == 0,
    decreases n,
{
    if n > 0 {
        lemma_chunk_cost_without_history(genes, (n - 1) as nat);
    }
}

/// Whatever ordering of the roster the search settles on, decoding it gives
/// a perfect matching: every participant, the placeholder included, is in
/// exactly one pair and there are half as many pairs as participants. This
/// holds for every history; against an empty history the matching also
/// costs nothing.
pub proof fn lemma_search_outcome_is_perfect_matching(people: People, genes: Seq<usize>, last: History)
    requires
        people.wf(),
        last.wf(),
        is_ordering_of(genes, people@),
    ensures
        is_perfect_matching(matching_of(genes, people@), people@),
        last@.len() == 0 ==> fitness_of(genes, last@) == 0,
{
    let m = people@;
    let pairs = matching_of(genes, m);
    people.lemma_ids();
    assert forall|j: int| 0 <= j < 2 * pairs.len() implies #[trigger] members(pairs)[j] == genes[j] by {
        if j % 2 == 0 {
            assert(2 * (j / 2) == j) by (nonlinear_arith)
                requires
                    j % 2 == 0,
            ;
        } else {
            assert(2 * (j / 2) + 1 == j) by (nonlinear_arith)
                requires
                    j % 2 == 1,
            ;
        }
    }
    assert(members(pairs) =~= genes);
    genes.unique_seq_to_set();
    assert(genes.to_set().subset_of(m.dom())) by {
        assert forall|x: usize| genes.to_set().contains(x) implies m.dom().contains(x) by {
            let i = choose|i: int| 0 <= i < genes.len() && genes[i] == x;
            assert(m.contains_key(genes[i]));
        }
    }
    assert(people.ids().to_set().finite());
    vstd::set_lib::lemma_subset_equality(genes.to_set(), m.dom());
    if last@.len() == 0 {
        assert(last@ =~= Map::empty()) by {
            assert(last@.dom() =~= Set::empty()) by {
                last.lemma_dom_finite();
                vstd::set_lib::lemma_set_empty_equivalency_len(last@.dom());
            }
        }
        lemma_chunk_cost_without_history(genes, genes.len() / 2);
    }
}

} // verus!
