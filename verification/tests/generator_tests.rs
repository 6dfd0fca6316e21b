use petaddr::address::PetAddress;
use petaddr::config::PetGeneratorConfig;
use petaddr::generator::{
    accepts_result, in_time_addresses, plan, store_batch, tally, task_step, Arrival, BatchReport,
    PetGenerator, TaskStep,
    BATCH_TIMEOUT_MILLIS,
    CYCLE_INTERVAL_SECS, RETRY_BACKOFF_MILLIS, TASK_ATTEMPTS,
};
use petaddr::storage::{PetStorage, StorageError};

fn fresh_store(tag: &str) -> PetStorage {
    let nanos = std::time::SystemTime::now()
        .duration_since(std::time::UNIX_EPOCH)
        .unwrap()
        .as_nanos();
    PetStorage::new(&format!("/tmp/petaddr-tests/gen-{}-{}", tag, nanos)).unwrap()
}

fn config(pool_size: usize, batch_size: usize) -> PetGeneratorConfig {
    PetGeneratorConfig { pool_size, batch_size, db_path: String::new() }
}

fn address_of(text: &str) -> PetAddress {
    PetAddress {
        public_key: text.to_string(),
        private_key: "secret".to_string(),
        address: text.to_string(),
    }
}

#[test]
fn replenishment_convergence() {
    let generator = PetGenerator::new(config(10, 3));
    let mut store = fresh_store("converge");
    let mut added = Vec::new();
    for _ in 0..6 {
        let count = generator.get_current_count(&store).unwrap();
        let n = generator.plan_cycle(count);
        let batch: Vec<PetAddress> = (0..n).map(|i| address_of(&format!("{}Pet", i))).collect();
        assert_eq!(store_batch(&mut store, &batch), n);
        added.push(n);
    }
    assert_eq!(added, vec![3, 3, 3, 1, 0, 0]);
    assert_eq!(store.count_addresses().unwrap(), 10);
    store.get_next_address().unwrap().unwrap();
    assert_eq!(generator.plan_cycle(store.count_addresses().unwrap()), 1);
}

#[test]
fn plan_is_the_smaller_of_need_and_batch() {
    assert_eq!(plan(0, 10, 3), 3);
    assert_eq!(plan(8, 10, 3), 2);
    assert_eq!(plan(9, 10, 3), 1);
    assert_eq!(plan(10, 10, 3), 0);
    assert_eq!(plan(15, 10, 3), 0);
    assert_eq!(plan(0, 2, 5), 2);
    assert_eq!(plan(0, 10, 0), 0);
    assert_eq!(plan(0, usize::MAX, usize::MAX), usize::MAX);
}

#[test]
fn generator_goes_through_its_states() {
    let mut generator = PetGenerator::new(config(10, 3));
    assert!(!generator.is_running());
    assert!(!generator.begin_cycle());
    assert!(generator.start());
    assert!(generator.is_running());
    assert!(generator.begin_cycle());
    assert!(generator.begin_cycle());
    generator.stop();
    assert!(!generator.is_running());
    assert!(!generator.begin_cycle());
    assert!(!generator.is_running());
    assert!(!generator.begin_cycle());
}

#[test]
fn start_is_idempotent() {
    let mut generator = PetGenerator::new(config(10, 3));
    assert!(generator.start());
    assert!(!generator.start());
    assert!(!generator.start());
    assert!(generator.is_running());
}

#[test]
fn stop_before_start_changes_nothing() {
    let mut generator = PetGenerator::new(config(10, 3));
    generator.stop();
    assert!(!generator.is_running());
    assert!(generator.start());
    assert!(generator.is_running());
}

#[test]
fn generator_can_be_started_again_after_a_stop() {
    let mut generator = PetGenerator::new(config(10, 3));
    generator.start();
    generator.stop();
    assert!(!generator.begin_cycle());
    assert!(generator.start());
    assert!(generator.begin_cycle());
}

#[test]
fn task_step_delivers_retries_and_gives_up() {
    match task_step(1, Some(address_of("aPet"))) {
        TaskStep::Deliver(a) => assert_eq!(a.address, "aPet"),
        _ => panic!("an address that was found is delivered"),
    }
    assert!(matches!(task_step(3, Some(address_of("aPet"))), TaskStep::Deliver(_)));
    assert!(matches!(task_step(1, None), TaskStep::Retry));
    assert!(matches!(task_step(2, None), TaskStep::Retry));
    assert!(matches!(task_step(3, None), TaskStep::GiveUp));
    assert!(matches!(task_step(4, None), TaskStep::GiveUp));
}

#[test]
fn accepts_result_up_to_the_deadline() {
    assert!(accepts_result(0));
    assert!(accepts_result(30_000));
    assert!(!accepts_result(30_001));
}

#[test]
fn standing_timings() {
    assert_eq!(TASK_ATTEMPTS, 3);
    assert_eq!(RETRY_BACKOFF_MILLIS, 100);
    assert_eq!(BATCH_TIMEOUT_MILLIS, 30_000);
    assert_eq!(CYCLE_INTERVAL_SECS, 5);
}

#[test]
fn store_batch_stores_in_the_order_of_delivery() {
    let mut store = fresh_store("batch");
    let batch = vec![address_of("aPet"), address_of("bPet"), address_of("cPet")];
    assert_eq!(store_batch(&mut store, &batch), 3);
    for (i, name) in ["aPet", "bPet", "cPet"].iter().enumerate() {
        let info = store.get_next_address().unwrap().unwrap();
        assert_eq!(info.id, i as u64 + 1);
        assert_eq!(info.address.address, *name);
    }
}

#[test]
fn store_batch_of_nothing_stores_nothing() {
    let mut store = fresh_store("nobatch");
    assert_eq!(store_batch(&mut store, &Vec::new()), 0);
    assert_eq!(store.count_addresses().unwrap(), 0);
}

#[test]
fn generate_batch_of_nothing_stores_nothing() {
    let mut store = fresh_store("zero");
    let report = PetGenerator::generate_batch(&mut store, 0);
    assert_eq!(report, BatchReport { found: 0, stored: 0 });
    assert_eq!(store.count_addresses().unwrap(), 0);
}

#[test]
fn current_count_is_the_count_of_the_store() {
    let generator = PetGenerator::new(config(10, 3));
    let mut store = fresh_store("passthrough");
    assert_eq!(generator.get_current_count(&store), Ok(0));
    store.store_address(address_of("aPet")).unwrap();
    assert_eq!(generator.get_current_count(&store), Ok(1));
}

#[test]
fn start_while_stopping_launches_no_second_task() {
    let mut generator = PetGenerator::new(config(10, 3));
    assert!(generator.start());
    generator.stop();
    assert!(!generator.start());
    assert!(generator.is_running());
    assert!(generator.begin_cycle());
}

#[test]
fn tally_counts_successes_only() {
    assert_eq!(tally(0, &Ok(7)), 1);
    assert_eq!(tally(4, &Ok(1)), 5);
    assert_eq!(tally(4, &Err(StorageError::Io)), 4);
    assert_eq!(tally(4, &Err(StorageError::Counter)), 4);
    assert_eq!(tally(usize::MAX, &Ok(1)), usize::MAX);
}

#[test]
fn arrivals_after_the_deadline_are_not_offered() {
    let arrival = |name: &str, elapsed_millis: u64| Arrival { address: address_of(name), elapsed_millis };
    let arrivals = vec![arrival("aPet", 10), arrival("bPet", 30_000), arrival("cPet", 30_001), arrival("dPet", 5)];
    let offered: Vec<String> = in_time_addresses(&arrivals).into_iter().map(|a| a.address).collect();
    assert_eq!(offered, vec!["aPet".to_string(), "bPet".to_string()]);
    assert!(in_time_addresses(&Vec::new()).is_empty());
    assert!(in_time_addresses(&vec![arrival("aPet", 40_000)]).is_empty());
}

#[test]
fn refused_address_is_dropped_and_the_others_are_stored() {
    let nanos = std::time::SystemTime::now().duration_since(std::time::UNIX_EPOCH).unwrap().as_nanos();
    let path = format!("/tmp/petaddr-tests/gen-refuse-{}", nanos);
    {
        let db = sled::open(&path).unwrap();
        db.insert("counter", (u64::MAX - 2).to_be_bytes().to_vec()).unwrap();
        db.flush().unwrap();
    }
    let mut store = PetStorage::new(&path).unwrap();
    let batch = vec![address_of("aPet"), address_of("bPet"), address_of("cPet"), address_of("dPet")];
    assert_eq!(store_batch(&mut store, &batch), 2);
    assert_eq!(store.count_addresses().unwrap(), 2);
    assert_eq!(store.get_next_address().unwrap().unwrap().address.address, "aPet");
    assert_eq!(store.get_next_address().unwrap().unwrap().address.address, "bPet");
}
