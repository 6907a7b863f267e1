use color_growth::dice::draw_unit;
use color_growth::dice::from_seed;
use color_growth::dice::HALF;
use color_growth::dice::UNIT;
use color_growth::vec_map::choose_index;
use color_growth::vec_map::VecMap;
use rand::rngs::StdRng;
use rand::Rng;
use rand::SeedableRng;

#[test]
fn new_map_is_empty() {
    let m: VecMap<usize, u8> = VecMap::new();
    assert!(m.is_empty());
    assert_eq!(m.len(), 0);
    assert!(!m.contains_key(0));
    assert_eq!(m.get(0), None);
}

#[test]
fn insert_adds_a_new_key() {
    let mut m: VecMap<usize, u8> = VecMap::new();
    assert_eq!(m.insert(7, 70), None);
    assert!(!m.is_empty());
    assert_eq!(m.len(), 1);
    assert!(m.contains_key(7));
    assert_eq!(m.get(7), Some(&70));
    assert_eq!(m.insert(9, 90), None);
    assert_eq!(m.len(), 2);
}

#[test]
fn insert_keeps_what_a_key_holds() {
    let mut m: VecMap<usize, u8> = VecMap::new();
    assert_eq!(m.insert(7, 70), None);
    assert_eq!(m.insert(7, 71), Some(70));
    assert_eq!(m.get(7), Some(&70));
    assert_eq!(m.len(), 1);
    assert_eq!(m.remove_at(0), (7, 70));
    assert!(m.is_empty());
}

#[test]
fn insert_modify_adds_a_new_key_without_calling() {
    let mut m: VecMap<usize, u8> = VecMap::new();
    m.insert_modify(3, 30, |_held| unreachable!());
    assert_eq!(m.get(3), Some(&30));
    assert_eq!(m.len(), 1);
}

#[test]
fn insert_modify_changes_what_a_key_holds() {
    let mut m: VecMap<usize, u8> = VecMap::new();
    m.insert(3, 30);
    m.insert(4, 40);
    m.insert_modify(3, 99, |held| held + 1);
    assert_eq!(m.get(3), Some(&31));
    assert_eq!(m.get(4), Some(&40));
    assert_eq!(m.len(), 2);
    // the order is as it was: 3 came first
    assert_eq!(m.remove_at(0), (3, 31));
}

#[test]
fn remove_at_moves_the_last_key_into_the_gap() {
    let mut m: VecMap<usize, u8> = VecMap::new();
    for k in 0..5usize {
        m.insert(k, 10 * k as u8);
    }
    assert_eq!(m.remove_at(1), (1, 10));
    assert!(!m.contains_key(1));
    assert_eq!(m.len(), 4);
    // order is now 0, 4, 2, 3
    assert_eq!(m.remove_at(1), (4, 40));
    // order is now 0, 3, 2
    assert_eq!(m.remove_at(2), (2, 20));
    assert_eq!(m.remove_at(1), (3, 30));
    assert_eq!(m.remove_at(0), (0, 0));
    assert!(m.is_empty());
}

#[test]
fn choose_index_takes_the_last_below_fuzz() {
    assert_eq!(choose_index(10, 3, 5, 6), 9);
    assert_eq!(choose_index(10, 3, 6, 6), 3);
    assert_eq!(choose_index(10, 3, 0, 0), 3);
    assert_eq!(choose_index(1, 0, 0, UNIT), 0);
    assert_eq!(choose_index(10, 9, UNIT - 1, UNIT), 9);
}

#[test]
fn rand_remove_of_empty_map_is_none_and_draws_nothing() {
    let mut m: VecMap<usize, u8> = VecMap::new();
    let mut rng = from_seed(5);
    assert_eq!(m.rand_remove(&mut rng, HALF), None);
    let mut fresh = StdRng::seed_from_u64(5);
    assert_eq!(rng.gen::<u64>(), fresh.gen::<u64>());
}

#[test]
fn rand_remove_with_full_fuzz_takes_the_last_place() {
    let mut m: VecMap<usize, u8> = VecMap::new();
    for k in 0..20usize {
        m.insert(k, k as u8);
    }
    let mut rng = from_seed(1);
    for k in (0..20usize).rev() {
        assert_eq!(m.rand_remove(&mut rng, UNIT), Some((k, k as u8)));
    }
    assert_eq!(m.rand_remove(&mut rng, UNIT), None);
    assert!(m.is_empty());
}

#[test]
fn rand_remove_without_fuzz_takes_the_drawn_place() {
    for seed in 0..20u64 {
        let mut m: VecMap<usize, u8> = VecMap::new();
        let mut order: Vec<usize> = Vec::new();
        for k in 0..30usize {
            m.insert(100 + k, k as u8);
            order.push(100 + k);
        }
        let mut rng = from_seed(seed);
        let mut twin = StdRng::seed_from_u64(seed);
        while !order.is_empty() {
            let index = twin.gen_range(0..order.len());
            let _unit: f64 = twin.gen();
            let key = order.swap_remove(index);
            assert_eq!(m.rand_remove(&mut rng, 0), Some((key, (key - 100) as u8)));
            assert_eq!(m.len(), order.len());
        }
        assert!(m.is_empty());
    }
}

#[test]
fn rand_remove_follows_the_unit_draw() {
    let fuzz = 0.8f64;
    let threshold = (fuzz * UNIT as f64).ceil() as u64;
    for seed in 0..20u64 {
        let mut m: VecMap<usize, u8> = VecMap::new();
        let mut order: Vec<usize> = Vec::new();
        for k in 0..30usize {
            m.insert(k, k as u8);
            order.push(k);
        }
        let mut rng = from_seed(seed);
        let mut twin = StdRng::seed_from_u64(seed);
        while !order.is_empty() {
            let mut index = twin.gen_range(0..order.len());
            if twin.gen::<f64>() < fuzz {
                index = order.len() - 1;
            }
            let key = order.swap_remove(index);
            assert_eq!(m.rand_remove(&mut rng, threshold), Some((key, key as u8)));
        }
    }
}

#[test]
fn unit_draw_is_the_generators_float() {
    for seed in 0..50u64 {
        let mut rng = from_seed(seed);
        let mut twin = StdRng::seed_from_u64(seed);
        for _ in 0..100 {
            let unit = draw_unit(&mut rng);
            let f: f64 = twin.gen();
            assert!(unit < UNIT);
            assert_eq!(unit as f64 / UNIT as f64, f);
            assert_eq!(unit > HALF, f > 0.5);
        }
    }
}

#[test]
fn from_seed_is_the_seeded_generator() {
    let mut a = from_seed(42);
    let mut b = StdRng::seed_from_u64(42);
    let mut c = from_seed(43);
    let x: u64 = a.gen();
    assert_eq!(x, b.gen::<u64>());
    assert_ne!(x, c.gen::<u64>());
}

#[test]
fn keys_and_entries_keep_the_same_count() {
    let mut m: VecMap<usize, u8> = VecMap::new();
    let mut rng = from_seed(3);
    let mut expected = 0usize;
    for round in 0..200usize {
        let key = round % 17;
        if !m.contains_key(key) {
            expected += 1;
        }
        m.insert_modify(key, 1, |held| held.wrapping_add(1));
        assert_eq!(m.len(), expected);
        if round % 3 == 0 {
            let (gone, _) = m.rand_remove(&mut rng, HALF).unwrap();
            expected -= 1;
            assert!(!m.contains_key(gone));
            assert_eq!(m.len(), expected);
        }
        assert_eq!(m.is_empty(), expected == 0);
    }
}

#[test]
fn last_place_can_hold_an_older_key() {
    let mut m: VecMap<usize, u8> = VecMap::new();
    for k in 0..4usize {
        m.insert(k, k as u8);
    }
    // order 0, 1, 2, 3: taking out the key at place 1 moves key 3 there
    assert_eq!(m.remove_at(1), (1, 1));
    // order 0, 3, 2: full fuzz takes the last place, which holds key 2
    let mut rng = from_seed(4);
    assert_eq!(m.rand_remove(&mut rng, UNIT), Some((2, 2)));
    assert_eq!(m.rand_remove(&mut rng, UNIT), Some((3, 3)));
    assert_eq!(m.rand_remove(&mut rng, UNIT), Some((0, 0)));
    assert_eq!(m.rand_remove(&mut rng, UNIT), None);
}
