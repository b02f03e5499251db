use buddy_up::merge;
use buddy_up::pair_fitness;
use buddy_up::BuddyError;
use buddy_up::History;
use buddy_up::Pairs;
use buddy_up::People;
use buddy_up::Person;
use buddy_up::EVENIZER_ID;
use genetic_algorithm::strategy::evolve::prelude::{
    CrossoverClone, Evolve, Fitness, FitnessChromosome, FitnessGenotype, FitnessOrdering,
    FitnessValue, Genotype, MutateSingleGene, SelectElite, Strategy, UniqueGenotype,
};

fn four() -> People {
    People::from_csv("1,Alice\n2,Bob\n3,Charlie\n4,David".as_bytes()).unwrap()
}

fn permutations(items: &[usize]) -> Vec<Vec<usize>> {
    if items.is_empty() {
        return vec![vec![]];
    }
    let mut out = Vec::new();
    for i in 0..items.len() {
        let mut rest = items.to_vec();
        let first = rest.remove(i);
        for mut tail in permutations(&rest) {
            tail.insert(0, first);
            out.push(tail);
        }
    }
    out
}

fn ids_of(pairs: Vec<(Person, Person)>) -> Vec<usize> {
    let mut ids = Vec::new();
    for (a, b) in pairs {
        ids.push(a.id());
        ids.push(b.id());
    }
    ids
}

fn every_pair_seen() -> History {
    let mut h = History::new();
    merge(&mut h, &vec![(1, 2), (1, 3), (1, 4), (2, 3), (2, 4), (3, 4)]);
    merge(&mut h, &vec![(1, 2), (3, 4)]);
    h
}

#[derive(Clone)]
struct HistoryCost<'a> {
    last: &'a History,
}

impl std::fmt::Debug for HistoryCost<'_> {
    fn fmt(&self, f: &mut std::fmt::Formatter<'_>) -> std::fmt::Result {
        f.write_str("HistoryCost")
    }
}

impl Fitness for HistoryCost<'_> {
    type Genotype = UniqueGenotype<usize>;
    fn calculate_for_chromosome(
        &mut self,
        chromosome: &FitnessChromosome<Self>,
        _genotype: &FitnessGenotype<Self>,
    ) -> Option<FitnessValue> {
        pair_fitness(&chromosome.genes, self.last)
    }
}

fn search(people: &People, last: &History) -> Vec<usize> {
    let genotype = UniqueGenotype::builder()
        .with_allele_list(people.as_ids())
        .build()
        .unwrap();
    let mut evolve = Evolve::builder()
        .with_genotype(genotype)
        .with_target_population_size(50)
        .with_max_stale_generations(100)
        .with_fitness(HistoryCost { last })
        .with_fitness_ordering(FitnessOrdering::Minimize)
        .with_target_fitness_score(0)
        .with_replace_on_equal_fitness(true)
        .with_mutate(MutateSingleGene::new(0.2))
        .with_crossover(CrossoverClone::new(0.9))
        .with_select(SelectElite::new(0.5, 0.02))
        .build()
        .unwrap();
    evolve.call();
    evolve.best_genes().unwrap()
}

#[test]
fn fitness_sums_scores_of_consecutive_pairs() {
    let mut h = History::new();
    h.insert((1, 2), 3);
    h.insert((4, 3), 1);
    assert_eq!(pair_fitness(&vec![1, 2, 3, 4], &h), Some(4));
    assert_eq!(pair_fitness(&vec![2, 1, 4, 3], &h), Some(4));
    assert_eq!(pair_fitness(&vec![1, 3, 2, 4], &h), Some(0));
    assert_eq!(pair_fitness(&vec![3, 4, 5, 6], &h), Some(1));
    assert_eq!(pair_fitness(&vec![], &h), Some(0));
}

#[test]
fn fitness_that_does_not_fit_is_none() {
    let mut h = History::new();
    h.insert((1, 2), usize::MAX);
    assert_eq!(pair_fitness(&vec![1, 2], &h), None);
    h.insert((1, 2), isize::MAX as usize);
    h.insert((3, 4), 1);
    assert_eq!(pair_fitness(&vec![1, 2], &h), Some(isize::MAX));
    assert_eq!(pair_fitness(&vec![1, 2, 3, 4], &h), None);
}

#[test]
fn every_ordering_of_four_is_a_free_perfect_matching_without_history() {
    let people = four();
    let empty = History::new();
    for genes in permutations(&[1, 2, 3, 4]) {
        assert_eq!(pair_fitness(&genes, &empty), Some(0));
        let pairs = Pairs::from_genes(&people, &genes).unwrap().inner();
        assert_eq!(pairs.len(), 2);
        let mut ids = ids_of(pairs);
        assert_eq!(ids, genes);
        ids.sort();
        assert_eq!(ids, vec![1, 2, 3, 4]);
    }
}

#[test]
fn every_ordering_is_a_perfect_matching_with_full_history() {
    let people = four();
    let h = every_pair_seen();
    for genes in permutations(&[1, 2, 3, 4]) {
        let cost = pair_fitness(&genes, &h).unwrap();
        assert!(cost >= 2);
        let mut ids = ids_of(Pairs::from_genes(&people, &genes).unwrap().inner());
        ids.sort();
        assert_eq!(ids, vec![1, 2, 3, 4]);
    }
}

#[test]
fn search_on_empty_history_finds_a_free_matching() {
    let people = four();
    let empty = History::new();
    let genes = search(&people, &empty);
    assert_eq!(pair_fitness(&genes, &empty), Some(0));
    let pairs = Pairs::from_genes(&people, &genes).unwrap().inner();
    assert_eq!(pairs.len(), 2);
    let mut ids = ids_of(pairs);
    ids.sort();
    assert_eq!(ids, vec![1, 2, 3, 4]);
}

#[test]
fn search_on_full_history_still_finds_a_perfect_matching() {
    let people = four();
    let h = every_pair_seen();
    let genes = search(&people, &h);
    let pairs = Pairs::from_genes(&people, &genes).unwrap().inner();
    assert_eq!(pairs.len(), 2);
    let mut ids = ids_of(pairs);
    ids.sort();
    assert_eq!(ids, vec![1, 2, 3, 4]);
}

#[test]
fn decoding_keeps_names() {
    let people = four();
    let pairs = Pairs::from_genes(&people, &vec![3, 1, 4, 2]).unwrap().inner();
    assert_eq!(pairs[0].0.id(), 3);
    assert_eq!(pairs[0].0.name(), "Charlie");
    assert_eq!(pairs[0].1.name(), "Alice");
    assert_eq!(pairs[1].0.name(), "David");
    assert_eq!(pairs[1].1.name(), "Bob");
}

#[test]
fn decoding_rejects_what_is_not_an_ordering() {
    let people = four();
    for genes in [vec![1, 2, 3], vec![1, 2, 3, 3], vec![1, 2, 3, 5], vec![1, 2], vec![1, 2, 3, 4, 5, 6]] {
        assert!(matches!(
            Pairs::from_genes(&people, &genes),
            Err(BuddyError::SearchInvariantViolation)
        ));
    }
}

#[test]
fn odd_roster_pairs_someone_with_the_placeholder() {
    let people = People::from_csv("1,Alice\n2,Bob\n3,Charlie".as_bytes()).unwrap();
    let genes = vec![2, EVENIZER_ID, 3, 1];
    let pairs = Pairs::from_genes(&people, &genes).unwrap();
    let (rows, unpaired) = pairs.split_unpaired();
    assert_eq!(rows, vec![("Charlie".to_string(), "Alice".to_string())]);
    let unpaired = unpaired.unwrap();
    assert_eq!(unpaired.id(), 2);
    assert_eq!(unpaired.name(), "Bob");

    let reversed = Pairs::from_genes(&people, &vec![1, 3, EVENIZER_ID, 2]).unwrap();
    let (rows, unpaired) = reversed.split_unpaired();
    assert_eq!(rows, vec![("Alice".to_string(), "Charlie".to_string())]);
    assert_eq!(unpaired.unwrap().name(), "Bob");
}

#[test]
fn table_shows_names_but_not_the_placeholder() {
    let people = People::from_csv("1,Alice\n2,Bob\n3,Charlie".as_bytes()).unwrap();
    let pairs = Pairs::from_genes(&people, &vec![1, 3, 2, EVENIZER_ID]).unwrap();
    let (table, unpaired) = pairs.table();
    assert!(table.contains("Alice"));
    assert!(table.contains("Charlie"));
    assert!(!table.contains("Bob"));
    assert!(!table.contains("EVENIZER"));
    assert_eq!(unpaired.unwrap().name(), "Bob");
}

#[test]
fn even_table_has_everyone_and_nobody_unpaired() {
    let pairs = Pairs::from_genes(&four(), &vec![1, 2, 3, 4]).unwrap();
    let (table, unpaired) = pairs.table();
    for name in ["Alice", "Bob", "Charlie", "David"] {
        assert!(table.contains(name));
    }
    assert!(unpaired.is_none());
}

#[test]
fn person_keeps_id_and_name() {
    let p = Person::new(5, "Eve".to_string());
    assert_eq!(p.id(), 5);
    assert_eq!(p.id, 5);
    assert_eq!(p.name(), "Eve");
}
