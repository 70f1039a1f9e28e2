use std::collections::HashMap;

use syncmap::map::SyncMap;

/// A small deterministic linear-congruential generator, so the operation
/// log is reproducible.
struct Lcg(u64);

impl Lcg {
    fn next(&mut self) -> u64 {
        self.0 = self.0.wrapping_mul(6364136223846793005).wrapping_add(1442695040888963407);
        self.0 >> 33
    }
}

#[test]
fn stress_replay_matches_model() {
    // eight workers' worth of operations, replayed in one interleaving over
    // a shared 100-key keyspace, checked step by step against a
    // single-threaded reference model
    let mut m: SyncMap<u64> = SyncMap::new();
    let mut model: HashMap<u64, u64> = HashMap::new();
    let mut rng = Lcg(0xfeed5eed);
    let ops = 8 * 10_000;
    for n in 0..ops {
        let key = rng.next() % 100;
        match rng.next() % 3 {
            0 => {
                let value = n as u64;
                m.store(key, value);
                model.insert(key, value);
            }
            1 => {
                assert_eq!(m.delete(key), model.remove(&key));
            }
            _ => {
                assert_eq!(m.load(key), model.get(&key));
            }
        }
    }
    // the final observable states agree
    let mut ks = m.range();
    ks.sort();
    let mut model_ks: Vec<u64> = model.keys().copied().collect();
    model_ks.sort();
    assert_eq!(ks, model_ks);
    for k in ks {
        assert_eq!(m.load(k), model.get(&k));
    }
}
