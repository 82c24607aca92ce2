use s_text_input_f::{Block, BlocksWithAnswer};
use ssr_facade::ordered::{find_id, insert_by_due, search_due};
use ssr_facade::{
    Error, Facade, Interaction, SharedState, SharedStateExt, Task, TaskId, TaskWrapper, LOOKAHEAD,
};

const SECOND: i128 = 1_000_000_000;
const T0: i128 = 1_700_000_000 * SECOND;

fn bits(retention: f64) -> u64 {
    retention.to_bits()
}

/// State shared by the cards of a deck. Every review adds a second of delay.
#[derive(Default, Debug, PartialEq)]
struct Shared {
    delay: i128,
    fitted: bool,
}

/// A card that is due at `base`, later by the shared delay and by a slack that
/// grows as the desired retention falls, each times the weight of the card.
#[derive(Debug, PartialEq)]
struct Card {
    base: i128,
    weight: i128,
    answer: String,
    reviews: u32,
}

fn card(base: i128, answer: &str) -> Card {
    Card { base, weight: 1, answer: answer.to_string(), reviews: 0 }
}

fn fixed(base: i128, answer: &str) -> Card {
    Card { base, weight: 0, answer: answer.to_string(), reviews: 0 }
}

fn template(answer: &str) -> BlocksWithAnswer {
    BlocksWithAnswer {
        blocks: vec![Block::OneOf(vec![answer.to_string()])],
        answer: vec![vec![answer.to_string()]],
    }
}

impl Task for Card {
    type SharedState = Shared;

    fn due(&self, state: &Shared, retention: u64) -> i128 {
        self.next_repetition(state, retention)
    }

    fn template(&self) -> BlocksWithAnswer {
        self.get_blocks()
    }

    fn made_from(&self, input: BlocksWithAnswer) -> bool {
        self.get_blocks().answer == input.answer
    }

    fn reviewed(
        &self,
        before: &Self,
        _state_before: &Shared,
        _state_after: &Shared,
        _retention: u64,
        _id: TaskId,
        success: bool,
    ) -> bool {
        self.reviews == before.reviews + u32::from(success)
    }

    fn new(input: BlocksWithAnswer) -> Self {
        Card { base: 0, weight: 1, answer: input.answer[0][0].clone(), reviews: 0 }
    }

    fn get_blocks(&self) -> BlocksWithAnswer {
        template(&self.answer)
    }

    fn next_repetition(&self, state: &Shared, retention: u64) -> i128 {
        let slack = ((1.0 - f64::from_bits(retention)) * 100.0).round() as i128;
        self.base + (state.delay + slack * SECOND) * self.weight
    }

    fn complete<I: Interaction>(
        &mut self,
        state: &mut Shared,
        _retention: u64,
        id: TaskId,
        interaction: &mut I,
    ) -> Result<(), std::io::Error> {
        let response = interaction.interact(id, self.get_blocks().blocks)?;
        if response == vec![vec![self.answer.clone()]] {
            self.base += 1000 * SECOND;
        } else {
            self.base += 60 * SECOND;
        }
        self.reviews += 1;
        state.delay += SECOND;
        Ok(())
    }
}

impl SharedState for Shared {
    fn initial() -> Self {
        Shared::default()
    }

    fn initial_state() -> Self {
        Shared::default()
    }
}

impl SharedStateExt<Card> for Shared {
    type Failure = String;

    fn fitted(&self, _before: &Self, _tasks: Vec<&Card>, success: bool) -> bool {
        self.fitted || !success
    }

    fn optimize(&mut self, tasks: Vec<&Card>) -> Result<(), String> {
        if tasks.is_empty() {
            return Err("nothing to fit".to_string());
        }
        self.delay = tasks.iter().map(|card| card.reviews as i128).sum::<i128>() * 100 * SECOND;
        self.fitted = true;
        Ok(())
    }
}

struct Answers {
    with: String,
    asked: Vec<TaskId>,
}

fn answers(with: &str) -> Answers {
    Answers { with: with.to_string(), asked: vec![] }
}

impl Interaction for Answers {
    fn interact(&mut self, id: TaskId, _blocks: Vec<Block>) -> Result<Vec<Vec<String>>, std::io::Error> {
        self.asked.push(id);
        Ok(vec![vec![self.with.clone()]])
    }
}

struct Broken;

impl Interaction for Broken {
    fn interact(&mut self, _id: TaskId, _blocks: Vec<Block>) -> Result<Vec<Vec<String>>, std::io::Error> {
        Err(std::io::Error::new(std::io::ErrorKind::UnexpectedEof, "input closed"))
    }
}

fn deck() -> Facade<Card> {
    Facade::new("deck".to_string(), bits(1.0)).unwrap()
}

fn ids_of(facade: &Facade<Card>) -> Vec<TaskId> {
    facade.iter().into_iter().map(|(_, id)| id).collect()
}

/// The answers of the waiting cards in their order, and those of the cards to
/// recall, sorted.
fn parts(facade: &Facade<Card>) -> (Vec<String>, Vec<String>) {
    let all: Vec<String> = facade.iter().into_iter().map(|(card, _)| card.answer.clone()).collect();
    assert_eq!(all.len(), facade.tasks_total());
    let waiting = facade.tasks_total() - facade.tasks_to_complete();
    let mut recall = all[waiting..].to_vec();
    recall.sort();
    (all[..waiting].to_vec(), recall)
}

fn id_of(facade: &Facade<Card>, answer: &str) -> TaskId {
    let found: Vec<TaskId> =
        facade.iter().into_iter().filter(|(card, _)| card.answer == answer).map(|(_, id)| id).collect();
    assert_eq!(found.len(), 1);
    found[0]
}

fn strings(items: &[&str]) -> Vec<String> {
    items.iter().map(|s| s.to_string()).collect()
}

fn now_nanos() -> i128 {
    std::time::SystemTime::now().duration_since(std::time::UNIX_EPOCH).unwrap().as_nanos() as i128
}

#[test]
fn new_facade_is_empty() {
    let facade = deck();
    assert_eq!(facade.get_name(), "deck");
    assert_eq!(facade.get_desired_retention(), bits(1.0));
    assert_eq!(facade.get_state(), &Shared::default());
    assert_eq!(facade.tasks_total(), 0);
    assert_eq!(facade.tasks_to_complete(), 0);
    assert!(facade.iter().is_empty());
}

#[test]
fn new_rejects_retention_out_of_range() {
    for bad in [0.0f64, -0.0, -0.5, 1.0000001, 2.0, f64::INFINITY, f64::NEG_INFINITY, f64::NAN, -f64::NAN] {
        assert!(matches!(Facade::<Card>::new("deck".to_string(), bits(bad)), Err(Error::InvalidRetention)));
    }
    for good in [1.0f64, 0.9, 0.5, f64::MIN_POSITIVE, 5e-324] {
        assert!(Facade::<Card>::new("deck".to_string(), bits(good)).is_ok());
    }
}

#[test]
fn empty_facade_has_no_task_to_complete() {
    let mut facade = deck();
    let mut user = answers("a");
    assert!(matches!(facade.complete_task_at(T0, &mut user), Err(Error::NoTask)));
    assert!(matches!(facade.complete_task(&mut user), Err(Error::NoTask)));
    assert!(user.asked.is_empty());
    assert_eq!(facade.tasks_total(), 0);
}

#[test]
fn insert_joins_the_pool_in_order_of_next_repetition() {
    let mut facade = deck();
    facade.insert(card(T0 + 100 * SECOND, "c"));
    facade.insert(card(T0 - SECOND, "a"));
    facade.insert(card(T0 + 5 * SECOND, "b"));
    assert_eq!(parts(&facade), (strings(&["a", "b", "c"]), strings(&[])));
    assert_eq!(facade.tasks_total(), 3);
    assert_eq!(facade.tasks_to_complete(), 0);
}

#[test]
fn insert_does_not_touch_the_batch_to_recall() {
    let mut facade = deck();
    facade.insert(card(T0 - SECOND, "a"));
    facade.find_tasks_to_recall_at(T0);
    facade.insert(card(T0 - 2 * SECOND, "b"));
    assert_eq!(parts(&facade), (strings(&["b"]), strings(&["a"])));
}

#[test]
fn entries_with_the_same_next_repetition_are_all_kept() {
    let mut facade = deck();
    for answer in ["a", "b", "c", "d"] {
        facade.insert(card(T0, answer));
    }
    assert_eq!(facade.tasks_total(), 4);
    assert_eq!(parts(&facade).0, strings(&["a", "b", "c", "d"]));
}

#[test]
fn identifiers_are_distinct() {
    let mut facade = deck();
    for i in 0..200 {
        facade.insert(card(T0 + (i % 7) * SECOND, "x"));
    }
    let mut ids = ids_of(&facade);
    ids.sort();
    ids.dedup();
    assert_eq!(ids.len(), 200);
}

#[test]
fn insert_entry_keeps_a_free_identifier_and_steps_past_a_taken_one() {
    let mut facade = deck();
    assert_eq!(facade.insert_entry(TaskWrapper { task: card(T0, "a"), id: 7 }), 7);
    assert_eq!(facade.insert_entry(TaskWrapper { task: card(T0, "b"), id: 8 }), 8);
    assert_eq!(facade.insert_entry(TaskWrapper { task: card(T0, "c"), id: 7 }), 9);
    assert_eq!(facade.insert_entry(TaskWrapper { task: card(T0, "d"), id: u128::MAX }), u128::MAX);
    assert_eq!(facade.insert_entry(TaskWrapper { task: card(T0, "e"), id: u128::MAX }), 0);
    assert_eq!(facade.insert_entry(TaskWrapper { task: card(T0, "f"), id: u128::MAX }), 1);
    assert_eq!(id_of(&facade, "c"), 9);
    assert_eq!(id_of(&facade, "f"), 1);
    assert_eq!(facade.mint(7), 10);
    assert_eq!(facade.mint(100), 100);
    assert!(facade.contains(9));
    assert!(!facade.contains(10));
}

#[test]
fn mint_apart_avoids_both_facades() {
    let mut one = deck();
    let mut two = deck();
    one.insert_entry(TaskWrapper { task: card(T0, "a"), id: 5 });
    two.insert_entry(TaskWrapper { task: card(T0, "b"), id: 6 });
    one.insert_entry(TaskWrapper { task: card(T0, "c"), id: 7 });
    assert_eq!(one.mint_apart(&two, 5), 8);
    assert_eq!(one.mint_apart(&two, 4), 4);
    assert_eq!(two.mint_apart(&one, 6), 8);
}

#[test]
fn advance_due_moves_what_is_due_within_the_lookahead() {
    let mut facade = deck();
    facade.insert(card(T0 + 100 * SECOND, "d"));
    facade.insert(card(T0 + 10 * SECOND, "b"));
    facade.insert(card(T0 - SECOND, "a"));
    facade.insert(card(T0 + 10 * SECOND + 1, "c"));
    assert_eq!(LOOKAHEAD, 10_000_000_000);
    facade.find_tasks_to_recall_at(T0);
    assert_eq!(parts(&facade), (strings(&["c", "d"]), strings(&["a", "b"])));
    assert_eq!(facade.tasks_total(), 4);
    facade.find_tasks_to_recall_at(T0);
    assert_eq!(parts(&facade), (strings(&["c", "d"]), strings(&["a", "b"])));
    facade.advance_due(T0 + 20 * SECOND, 80 * 1_000_000_000);
    assert_eq!(parts(&facade), (strings(&[]), strings(&["a", "b", "c", "d"])));
}

#[test]
fn advance_due_with_no_lookahead_takes_what_is_due_by_now() {
    let mut facade = deck();
    facade.insert(card(T0, "a"));
    facade.insert(card(T0 + 1, "b"));
    facade.advance_due(T0, 0);
    assert_eq!(parts(&facade), (strings(&["b"]), strings(&["a"])));
}

#[test]
fn advance_due_at_the_last_instant_takes_everything() {
    let mut facade = deck();
    facade.insert(card(i128::MAX, "a"));
    facade.insert(card(i128::MIN, "b"));
    facade.find_tasks_to_recall_at(i128::MAX);
    assert_eq!(parts(&facade), (strings(&[]), strings(&["a", "b"])));
}

#[test]
fn scenario_three_items_as_the_lookahead_has_it() {
    let mut facade = deck();
    facade.insert(card(T0 - SECOND, "item1"));
    facade.insert(card(T0 + 5 * SECOND, "item2"));
    facade.insert(card(T0 + 100 * SECOND, "item3"));
    facade.advance_due(T0, 10 * 1_000_000_000);
    assert_eq!(parts(&facade), (strings(&["item3"]), strings(&["item1", "item2"])));
    let mut user = answers("item1");
    assert!(facade.complete_task_at(T0, &mut user).is_ok());
    assert_eq!(facade.tasks_to_complete(), 1);
    assert_eq!(facade.tasks_total(), 3);
    assert_eq!(user.asked.len(), 1);
}

#[test]
fn scenario_three_items_one_due() {
    let mut facade = deck();
    facade.insert(card(T0 - SECOND, "item1"));
    facade.insert(card(T0 + 15 * SECOND, "item2"));
    facade.insert(card(T0 + 100 * SECOND, "item3"));
    let first = id_of(&facade, "item1");
    facade.advance_due(T0, 10 * 1_000_000_000);
    assert_eq!(parts(&facade), (strings(&["item2", "item3"]), strings(&["item1"])));
    let mut user = answers("wrong");
    assert!(facade.complete_task_at(T0, &mut user).is_ok());
    assert_eq!(user.asked, vec![first]);
    assert_eq!(facade.tasks_to_complete(), 0);
    // A wrong answer puts the card 60 s later; the review adds a second of delay.
    assert_eq!(parts(&facade), (strings(&["item2", "item1", "item3"]), strings(&[])));
    let entries = facade.iter();
    assert_eq!(entries[1].1, first);
    assert_eq!(entries[1].0.reviews, 1);
    assert_eq!(
        entries[1].0.next_repetition(facade.get_state(), facade.get_desired_retention()),
        T0 - SECOND + 60 * SECOND + SECOND
    );
    assert_eq!(facade.get_state().delay, SECOND);
}

#[test]
fn review_with_the_right_answer_puts_the_card_far_into_the_pool() {
    let mut facade = deck();
    facade.insert(card(T0 - SECOND, "a"));
    facade.insert(card(T0 + 500 * SECOND, "b"));
    let mut user = answers("a");
    assert!(facade.complete_task_at(T0, &mut user).is_ok());
    assert_eq!(parts(&facade), (strings(&["b", "a"]), strings(&[])));
}

#[test]
fn nothing_due_yet_reports_the_wait() {
    let mut facade = deck();
    facade.insert(card(T0 + 100 * SECOND, "b"));
    facade.insert(card(T0 + 11 * SECOND, "a"));
    let mut user = answers("a");
    match facade.complete_task_at(T0, &mut user) {
        Err(Error::NoTaskToComplete { time_until_next_repetition }) => {
            assert_eq!(time_until_next_repetition, 11_000_000_000);
        }
        other => panic!("{other:?}"),
    }
    assert!(user.asked.is_empty());
    assert_eq!(parts(&facade), (strings(&["a", "b"]), strings(&[])));
    match facade.complete_task_at(T0 + SECOND - 1, &mut user) {
        Err(Error::NoTaskToComplete { time_until_next_repetition }) => {
            assert_eq!(time_until_next_repetition, 10_000_000_001);
        }
        other => panic!("{other:?}"),
    }
    assert!(facade.complete_task_at(T0 + SECOND, &mut user).is_ok());
}

#[test]
fn failed_interaction_leaves_the_task_to_recall() {
    let mut facade = deck();
    facade.insert(card(T0 - SECOND, "a"));
    facade.insert(card(T0 + 100 * SECOND, "b"));
    let id = id_of(&facade, "a");
    match facade.complete_task_at(T0, &mut Broken) {
        Err(Error::IO(failure)) => {
            assert_eq!(failure.kind(), std::io::ErrorKind::UnexpectedEof);
            assert_eq!(failure.to_string(), "input closed");
        }
        other => panic!("{other:?}"),
    }
    assert_eq!(parts(&facade), (strings(&["b"]), strings(&["a"])));
    assert_eq!(id_of(&facade, "a"), id);
    let entries = facade.iter();
    assert_eq!(*entries[1].0, card(T0 - SECOND, "a"));
    assert_eq!(facade.get_state(), &Shared::default());
    let mut user = answers("a");
    assert!(facade.complete_task_at(T0, &mut user).is_ok());
    assert_eq!(user.asked, vec![id]);
}

#[test]
fn every_task_to_recall_gets_its_review() {
    let mut facade = deck();
    for i in 0..20 {
        facade.insert(card(T0 - i * SECOND, "x"));
    }
    let mut expected = ids_of(&facade);
    expected.sort();
    let mut user = answers("x");
    for left in (0..20).rev() {
        assert!(facade.complete_task_at(T0, &mut user).is_ok());
        assert_eq!(facade.tasks_to_complete(), left);
        assert_eq!(facade.tasks_total(), 20);
    }
    assert!(matches!(facade.complete_task_at(T0, &mut user), Err(Error::NoTaskToComplete { .. })));
    let mut asked = user.asked.clone();
    asked.sort();
    assert_eq!(asked, expected);
}

#[test]
fn random_choice_reaches_every_entry() {
    let mut seen = [false; 3];
    for _ in 0..300 {
        let mut facade = deck();
        facade.insert(card(T0 - 3 * SECOND, "0"));
        facade.insert(card(T0 - 2 * SECOND, "1"));
        facade.insert(card(T0 - SECOND, "2"));
        facade.find_tasks_to_recall_at(T0);
        let taken = facade.take_random_task().unwrap();
        seen[taken.task.answer.parse::<usize>().unwrap()] = true;
        assert_eq!(facade.tasks_to_complete(), 2);
        assert!(!facade.contains(taken.id));
    }
    assert_eq!(seen, [true; 3]);
}

#[test]
fn take_random_task_of_an_empty_batch_is_none() {
    let mut facade = deck();
    facade.insert(card(T0 + 100 * SECOND, "a"));
    assert!(facade.take_random_task().is_none());
    assert_eq!(facade.tasks_total(), 1);
}

#[test]
fn take_task_moves_the_last_entry_into_the_gap() {
    let mut facade = deck();
    for (i, answer) in ["a", "b", "c", "d"].iter().enumerate() {
        facade.insert(card(T0 + i as i128, answer));
    }
    facade.find_tasks_to_recall_at(T0);
    let taken = facade.take_task(1);
    assert_eq!(taken.task.answer, "b");
    let order: Vec<String> = facade.iter().into_iter().map(|(card, _)| card.answer.clone()).collect();
    assert_eq!(order, strings(&["a", "d", "c"]));
    let last = facade.take_task(2);
    assert_eq!(last.task.answer, "c");
    assert_eq!(facade.tasks_total(), 2);
}

#[test]
fn settle_takes_the_entry_back_as_the_outcome_asks() {
    let mut facade = deck();
    facade.insert(card(T0 - SECOND, "a"));
    facade.insert(card(T0 + 50 * SECOND, "b"));
    facade.find_tasks_to_recall_at(T0);
    let mut taken = facade.take_task(0);
    taken.task.base = T0 + 70 * SECOND;
    let id = taken.id;
    assert!(facade.settle(taken, Ok(())).is_ok());
    assert_eq!(parts(&facade), (strings(&["b", "a"]), strings(&[])));
    assert_eq!(id_of(&facade, "a"), id);

    facade.find_tasks_to_recall_at(T0 + 60 * SECOND);
    let taken = facade.take_task(0);
    let failure = std::io::Error::new(std::io::ErrorKind::Interrupted, "stop");
    match facade.settle(taken, Err(failure)) {
        Err(Error::IO(failure)) => assert_eq!(failure.kind(), std::io::ErrorKind::Interrupted),
        other => panic!("{other:?}"),
    }
    assert_eq!(parts(&facade), (strings(&[]), strings(&["a", "b"])));
}

#[test]
fn review_at_reviews_the_entry_at_the_index() {
    let mut facade = deck();
    facade.insert(card(T0 - 2 * SECOND, "a"));
    facade.insert(card(T0 - SECOND, "b"));
    facade.find_tasks_to_recall_at(T0);
    let b = id_of(&facade, "b");
    let mut user = answers("b");
    assert!(facade.review_at(1, &mut user).is_ok());
    assert_eq!(user.asked, vec![b]);
    assert_eq!(parts(&facade), (strings(&["b"]), strings(&["a"])));
    assert!(matches!(facade.review_at(0, &mut Broken), Err(Error::IO(_))));
    assert_eq!(parts(&facade), (strings(&["b"]), strings(&["a"])));
}

#[test]
fn a_review_that_changes_the_shared_state_reorders_the_pool() {
    let mut facade = deck();
    facade.insert(card(T0 - SECOND, "due"));
    facade.insert(Card { base: T0 + 20 * SECOND, weight: 15, answer: "heavy".to_string(), reviews: 0 });
    facade.insert(fixed(T0 + 30 * SECOND, "fixed"));
    assert_eq!(parts(&facade).0, strings(&["due", "heavy", "fixed"]));
    let mut user = answers("due");
    assert!(facade.complete_task_at(T0, &mut user).is_ok());
    // One second of delay: the heavy card is now due at +35 s, after the fixed one.
    assert_eq!(parts(&facade), (strings(&["fixed", "heavy", "due"]), strings(&[])));
}

#[test]
fn remove_drops_one_task_if_it_is_there() {
    let mut facade = deck();
    facade.insert(card(T0 - SECOND, "a"));
    facade.insert(card(T0 + 50 * SECOND, "b"));
    facade.insert(card(T0 + 60 * SECOND, "c"));
    facade.find_tasks_to_recall_at(T0);
    let (a, b, c) = (id_of(&facade, "a"), id_of(&facade, "b"), id_of(&facade, "c"));
    let unknown = facade.mint(0);
    assert!(!facade.remove(unknown));
    assert_eq!(parts(&facade), (strings(&["b", "c"]), strings(&["a"])));
    assert!(facade.remove(b));
    assert_eq!(facade.tasks_total(), 2);
    assert_eq!(parts(&facade), (strings(&["c"]), strings(&["a"])));
    assert!(!facade.remove(b));
    assert_eq!(facade.tasks_total(), 2);
    assert!(facade.remove(a));
    assert_eq!(facade.tasks_total(), 1);
    assert_eq!(facade.tasks_to_complete(), 0);
    assert!(facade.remove(c));
    assert_eq!(facade.tasks_total(), 0);
    assert!(!facade.remove(c));
}

#[test]
fn count_is_pool_plus_recall_after_every_operation() {
    let mut facade = deck();
    let mut user = answers("x");
    let check = |facade: &Facade<Card>, total: usize| {
        assert_eq!(facade.tasks_total(), total);
        assert_eq!(facade.iter().len(), total);
        assert!(facade.tasks_to_complete() <= total);
    };
    for i in 0..10 {
        facade.insert(card(T0 + (i - 5) * 4 * SECOND, "x"));
        check(&facade, i as usize + 1);
    }
    facade.find_tasks_to_recall_at(T0);
    check(&facade, 10);
    assert_eq!(facade.tasks_to_complete(), 8);
    facade.complete_task_at(T0, &mut user).unwrap();
    check(&facade, 10);
    assert!(facade.complete_task_at(T0, &mut Broken).is_err());
    check(&facade, 10);
    facade.set_desired_retention_at(bits(0.9), T0).unwrap();
    check(&facade, 10);
    facade.reload_all_tasks_timings_at(T0 + 3 * SECOND);
    check(&facade, 10);
    let id = ids_of(&facade)[3];
    facade.remove(id);
    check(&facade, 9);
    facade.optimize().unwrap();
    check(&facade, 9);
    facade.create_task(template("y"));
    check(&facade, 10);
}

#[test]
fn until_next_repetition_at_tells_the_wait() {
    let mut facade = deck();
    assert_eq!(facade.until_next_repetition_at(T0), None);
    facade.insert(card(T0 + 30 * SECOND, "b"));
    facade.insert(card(T0 + 20 * SECOND, "a"));
    assert_eq!(facade.until_next_repetition_at(T0), Some(20_000_000_000));
    assert_eq!(facade.until_next_repetition_at(T0 + 20 * SECOND), Some(0));
    assert_eq!(facade.until_next_repetition_at(T0 + 20 * SECOND + 1), None);
    assert_eq!(facade.until_next_repetition_at(T0 - 7), Some(20_000_000_007));
    facade.find_tasks_to_recall_at(T0 + 10 * SECOND);
    assert_eq!(facade.tasks_to_complete(), 1);
    assert_eq!(facade.until_next_repetition_at(T0), None);
}

#[test]
fn set_desired_retention_sets_every_task_where_it_belongs() {
    let mut facade = deck();
    facade.insert(card(T0 - 10 * SECOND, "a"));
    facade.insert(fixed(T0 + 20 * SECOND, "b"));
    facade.insert(card(T0 - 100 * SECOND, "c"));
    facade.insert(fixed(T0 - 5 * SECOND, "d"));
    facade.insert(card(T0 + 5 * SECOND, "e"));
    facade.find_tasks_to_recall_at(T0);
    assert_eq!(parts(&facade), (strings(&["b"]), strings(&["a", "c", "d", "e"])));
    // At 0.5 every weighted card is due 50 s later.
    assert!(facade.set_desired_retention_at(bits(0.5), T0).is_ok());
    assert_eq!(facade.get_desired_retention(), bits(0.5));
    assert_eq!(parts(&facade), (strings(&["b", "a", "e"]), strings(&["c", "d"])));
    for (i, (task, _)) in facade.iter().into_iter().enumerate() {
        let due = task.next_repetition(facade.get_state(), facade.get_desired_retention());
        assert_eq!(due <= T0, i >= 3);
    }
    assert!(facade.set_desired_retention_at(bits(1.0), T0 + 5 * SECOND).is_ok());
    assert_eq!(parts(&facade), (strings(&["b"]), strings(&["a", "c", "d", "e"])));
}

#[test]
fn set_desired_retention_reorders_the_pool() {
    let mut facade = deck();
    facade.insert(fixed(T0 + 30 * SECOND, "x"));
    facade.insert(card(T0 + 20 * SECOND, "y"));
    assert_eq!(parts(&facade).0, strings(&["y", "x"]));
    facade.set_desired_retention_at(bits(0.5), T0).unwrap();
    assert_eq!(parts(&facade).0, strings(&["x", "y"]));
}

#[test]
fn set_desired_retention_rejects_what_is_out_of_range() {
    let mut facade = deck();
    facade.insert(card(T0 - SECOND, "a"));
    facade.insert(card(T0 + 30 * SECOND, "b"));
    for bad in [0.0f64, 1.5, -0.3, f64::NAN] {
        assert!(matches!(facade.set_desired_retention_at(bits(bad), T0), Err(Error::InvalidRetention)));
        assert!(matches!(facade.set_desired_retention(bits(bad)), Err(Error::InvalidRetention)));
        assert_eq!(facade.get_desired_retention(), bits(1.0));
        assert_eq!(parts(&facade), (strings(&["a", "b"]), strings(&[])));
    }
}

#[test]
fn reload_moves_tasks_both_ways() {
    let mut facade = deck();
    facade.insert(card(T0 + 5 * SECOND, "soon"));
    facade.insert(card(T0 - SECOND, "past"));
    facade.insert(card(T0 + 50 * SECOND, "later"));
    facade.find_tasks_to_recall_at(T0);
    assert_eq!(parts(&facade), (strings(&["later"]), strings(&["past", "soon"])));
    // Without the lookahead the card due in 5 s is not due yet.
    facade.reload_all_tasks_timings_at(T0);
    assert_eq!(parts(&facade), (strings(&["soon", "later"]), strings(&["past"])));
    facade.reload_all_tasks_timings_at(T0 + 5 * SECOND);
    assert_eq!(parts(&facade), (strings(&["later"]), strings(&["past", "soon"])));
    facade.reload_all_tasks_timings_at(T0 - 2 * SECOND);
    assert_eq!(parts(&facade), (strings(&["past", "soon", "later"]), strings(&[])));
}

#[test]
fn optimize_replaces_the_state_and_keeps_the_tasks() {
    let mut facade = deck();
    assert_eq!(facade.optimize(), Err("nothing to fit".to_string()));
    assert_eq!(facade.get_state(), &Shared::default());
    facade.insert(Card { base: T0 + 10 * SECOND, weight: 1, answer: "a".to_string(), reviews: 1 });
    facade.insert(fixed(T0 + 20 * SECOND, "b"));
    facade.insert(card(T0 - SECOND, "c"));
    facade.find_tasks_to_recall_at(T0 - 5 * SECOND);
    let before = ids_of(&facade);
    assert_eq!(parts(&facade), (strings(&["a", "b"]), strings(&["c"])));
    assert_eq!(facade.optimize(), Ok(()));
    assert_eq!(facade.get_state(), &Shared { delay: 100 * SECOND, fitted: true });
    assert_eq!(parts(&facade), (strings(&["b", "a"]), strings(&["c"])));
    let mut after = ids_of(&facade);
    after.sort();
    let mut sorted = before.clone();
    sorted.sort();
    assert_eq!(after, sorted);
}

#[test]
fn migrate_keeps_count_and_templates_and_no_identifier() {
    let mut facade = Facade::<Card>::new("deck".to_string(), bits(0.8)).unwrap();
    facade.insert(card(T0 + 100 * SECOND, "b"));
    facade.insert(card(T0 - SECOND, "a"));
    facade.insert(card(T0 + 200 * SECOND, "c"));
    // At 0.8 every card is due 20 s later.
    let mut user = answers("zzz");
    facade.complete_task_at(T0 + 30 * SECOND, &mut user).unwrap();
    facade.find_tasks_to_recall_at(T0 + 115 * SECOND);
    assert_eq!(parts(&facade), (strings(&["c"]), strings(&["a", "b"])));
    let migrated: Facade<Card> = facade.migrate();
    assert_eq!(migrated.get_name(), "deck");
    assert_eq!(migrated.get_desired_retention(), bits(0.8));
    assert_eq!(migrated.get_state(), &Shared::default());
    assert_eq!(migrated.tasks_total(), 3);
    assert_eq!(migrated.tasks_to_complete(), 0);
    let answers_before = strings(&["a", "b", "c"]);
    let mut answers_after = parts(&migrated).0;
    answers_after.sort();
    assert_eq!(answers_after, answers_before);
    for (task, id) in migrated.iter() {
        assert_eq!(task.reviews, 0);
        assert_eq!(task.base, 0);
        assert!(!facade.contains(id));
    }
    let mut ids = ids_of(&migrated);
    ids.sort();
    ids.dedup();
    assert_eq!(ids.len(), 3);
    assert_eq!(facade.tasks_total(), 3);
}

#[test]
fn create_task_builds_the_task_from_the_template() {
    let mut facade = deck();
    facade.create_task(template("q"));
    assert_eq!(facade.tasks_total(), 1);
    let entries = facade.iter();
    assert_eq!(*entries[0].0, Card { base: 0, weight: 1, answer: "q".to_string(), reviews: 0 });
    assert_eq!(entries[0].0.get_blocks().answer, vec![vec!["q".to_string()]]);
}

#[test]
fn from_parts_keeps_identifiers_and_sorts_the_pool() {
    let pool = vec![
        TaskWrapper { task: card(T0 + 30 * SECOND, "c"), id: 3 },
        TaskWrapper { task: card(T0 + 10 * SECOND, "a"), id: 1 },
        TaskWrapper { task: card(T0 + 20 * SECOND, "b"), id: 2 },
    ];
    let recall = vec![
        TaskWrapper { task: card(T0 + 90 * SECOND, "z"), id: 26 },
        TaskWrapper { task: card(T0 - 90 * SECOND, "y"), id: 25 },
    ];
    let state = Shared { delay: 4, fitted: true };
    let facade = Facade::from_parts("saved".to_string(), pool, recall, bits(0.7), state).unwrap();
    assert_eq!(facade.get_name(), "saved");
    assert_eq!(facade.get_desired_retention(), bits(0.7));
    assert_eq!(facade.get_state(), &Shared { delay: 4, fitted: true });
    assert_eq!(ids_of(&facade), vec![1, 2, 3, 26, 25]);
    assert_eq!(facade.tasks_to_complete(), 2);
    assert_eq!(facade.tasks_total(), 5);
}

#[test]
fn from_parts_rejects_repeated_identifiers_and_bad_retention() {
    let entry = |id: TaskId| TaskWrapper { task: card(T0, "a"), id };
    let made = Facade::from_parts("s".to_string(), vec![entry(1), entry(2), entry(1)], vec![], bits(0.7), Shared::default());
    assert!(matches!(made, Err(Error::DuplicateId { id: 1 })));
    let made = Facade::from_parts("s".to_string(), vec![entry(1), entry(2)], vec![entry(3), entry(2)], bits(0.7), Shared::default());
    assert!(matches!(made, Err(Error::DuplicateId { id: 2 })));
    let made = Facade::from_parts("s".to_string(), vec![], vec![entry(3), entry(3)], bits(0.7), Shared::default());
    assert!(matches!(made, Err(Error::DuplicateId { id: 3 })));
    let made = Facade::from_parts("s".to_string(), vec![entry(1), entry(1)], vec![], bits(1.7), Shared::default());
    assert!(matches!(made, Err(Error::InvalidRetention)));
    let made = Facade::from_parts("s".to_string(), vec![entry(1)], vec![entry(2)], bits(1.0), Shared::default());
    assert!(made.is_ok());
}

#[test]
fn wrapper_compares_by_next_repetition_alone() {
    let state = Shared::default();
    let early = TaskWrapper { task: card(T0, "a"), id: 9 };
    let late = TaskWrapper { task: card(T0 + 1, "b"), id: 1 };
    let twin = TaskWrapper { task: card(T0, "z"), id: 5 };
    assert_eq!(early.next_repetition(&state, bits(1.0)), T0);
    assert_eq!(early.next_repetition(&state, bits(0.5)), T0 + 50 * SECOND);
    assert!(early.due_before(&late, &state, bits(1.0)));
    assert!(!late.due_before(&early, &state, bits(1.0)));
    assert!(!early.due_before(&twin, &state, bits(1.0)));
    assert!(early.same_due(&twin, &state, bits(1.0)));
    assert!(!early.same_due(&late, &state, bits(1.0)));
}

#[test]
fn wrapper_new_keeps_the_task() {
    let one = TaskWrapper::new(card(T0, "a"));
    let two = TaskWrapper::new(card(T0, "a"));
    assert_eq!(one.task, card(T0, "a"));
    assert_ne!(one.id, two.id);
}

#[test]
fn the_clock_driven_calls_use_the_current_instant() {
    let now = now_nanos();
    let hour = 3600 * SECOND;
    let mut facade = deck();
    facade.insert(card(now + hour, "later"));
    facade.insert(card(now + 2 * hour, "last"));
    let wait = facade.until_next_repetition().unwrap() as i128;
    assert!(wait > hour - 60 * SECOND && wait <= hour);
    let mut user = answers("wrong");
    match facade.complete_task(&mut user) {
        Err(Error::NoTaskToComplete { time_until_next_repetition }) => {
            let wait = time_until_next_repetition as i128;
            assert!(wait > hour - 60 * SECOND && wait <= hour);
        }
        other => panic!("{other:?}"),
    }
    facade.insert(card(now - 30 * SECOND, "past"));
    // The first waiting card is due already: there is nothing to wait for.
    assert_eq!(facade.until_next_repetition(), None);
    facade.find_tasks_to_recall();
    assert_eq!(parts(&facade), (strings(&["later", "last"]), strings(&["past"])));
    assert_eq!(facade.until_next_repetition(), None);
    // A wrong answer puts the card 60 s later, the review adds a second of delay.
    assert!(facade.complete_task(&mut user).is_ok());
    assert_eq!(parts(&facade), (strings(&["past", "later", "last"]), strings(&[])));
    match facade.complete_task(&mut user) {
        Err(Error::NoTaskToComplete { time_until_next_repetition }) => {
            let wait = time_until_next_repetition as i128;
            assert!(wait > 10 * SECOND && wait <= 31 * SECOND);
        }
        other => panic!("{other:?}"),
    }
    facade.insert(card(now - 2 * hour, "old"));
    facade.reload_all_tasks_timings();
    assert_eq!(parts(&facade), (strings(&["past", "later", "last"]), strings(&["old"])));
    // At 0.5 every card is due 50 s later: no card changes sides.
    assert!(facade.set_desired_retention(bits(0.5)).is_ok());
    assert_eq!(parts(&facade), (strings(&["past", "later", "last"]), strings(&["old"])));
    assert_eq!(facade.get_desired_retention(), bits(0.5));
}

fn entry(base: i128, answer: &str, id: TaskId) -> TaskWrapper<Card> {
    TaskWrapper { task: card(base, answer), id }
}

#[test]
fn search_due_counts_the_entries_due_by_the_key() {
    let state = Shared::default();
    let entries = vec![entry(10, "a", 1), entry(20, "b", 2), entry(20, "c", 3), entry(40, "d", 4)];
    for (key, rank) in [(i128::MIN, 0), (9, 0), (10, 1), (19, 1), (20, 3), (39, 3), (40, 4), (i128::MAX, 4)] {
        assert_eq!(search_due(&entries, key, &state, bits(1.0)), rank, "{key}");
    }
    assert_eq!(search_due(&Vec::<TaskWrapper<Card>>::new(), 5, &state, bits(1.0)), 0);
    // At 0.9 every card is due 10 s later.
    assert_eq!(search_due(&entries, 20, &state, bits(0.9)), 0);
    assert_eq!(search_due(&entries, 10 * SECOND + 20, &state, bits(0.9)), 3);
}

#[test]
fn insert_by_due_puts_an_entry_behind_those_due_no_later() {
    let state = Shared::default();
    let mut entries = vec![entry(10, "a", 1), entry(20, "b", 2), entry(40, "d", 4)];
    insert_by_due(&mut entries, entry(20, "c", 3), &state, bits(1.0));
    insert_by_due(&mut entries, entry(5, "first", 5), &state, bits(1.0));
    insert_by_due(&mut entries, entry(50, "last", 6), &state, bits(1.0));
    let ids: Vec<TaskId> = entries.iter().map(|entry| entry.id).collect();
    assert_eq!(ids, vec![5, 1, 2, 3, 4, 6]);
}

#[test]
fn find_id_gives_the_first_position() {
    let entries = vec![entry(10, "a", 7), entry(20, "b", 9), entry(30, "c", 7)];
    assert_eq!(find_id(&entries, 7), Some(0));
    assert_eq!(find_id(&entries, 9), Some(1));
    assert_eq!(find_id(&entries, 8), None);
    assert_eq!(find_id(&Vec::<TaskWrapper<Card>>::new(), 8), None);
}
