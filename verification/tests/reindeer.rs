use cch23::reindeer::{checked_strength, speed_bits, speed_rank, strength, ContestResults, Reindeer};

fn reindeer(name: &str, strength: i32) -> Reindeer {
    Reindeer {
        name: name.to_string(),
        strength,
        speed_rank: speed_rank(0f64.to_bits()),
        height: 0,
        antler_width: 0,
        snow_magic_power: 0,
        favorite_food: String::new(),
        candies: 0,
    }
}

#[allow(clippy::too_many_arguments)]
fn full(
    name: &str,
    strength: i32,
    speed: f64,
    height: i32,
    antler_width: i32,
    snow_magic_power: i32,
    favorite_food: &str,
    candies: i32,
) -> Reindeer {
    Reindeer {
        name: name.to_string(),
        strength,
        speed_rank: speed_rank(speed.to_bits()),
        height,
        antler_width,
        snow_magic_power,
        favorite_food: favorite_food.to_string(),
        candies,
    }
}

#[test]
fn strength_test() {
    let data = vec![
        reindeer("Dasher", 5),
        reindeer("Dancer", 6),
        reindeer("Prancer", 4),
        reindeer("Vixen", 7),
    ];
    let expected = 22;
    assert_eq!(strength(&data), expected);
    assert_eq!(strength(&data).to_string(), expected.to_string());
    assert_eq!(checked_strength(&data), Some(expected));
}

#[test]
fn strength_of_no_reindeer_is_zero() {
    assert_eq!(checked_strength(&vec![]), Some(0));
    assert_eq!(strength(&vec![]), 0);
}

#[test]
fn strength_overflow_in_a_running_sum() {
    // The total fits, but the running sum leaves the i32 range on the way.
    let data = vec![reindeer("A", i32::MAX), reindeer("B", 1), reindeer("C", -1)];
    assert_eq!(checked_strength(&data), None);
    let data = vec![reindeer("A", i32::MIN), reindeer("B", -1)];
    assert_eq!(checked_strength(&data), None);
    let data = vec![reindeer("A", i32::MAX), reindeer("B", i32::MIN)];
    assert_eq!(checked_strength(&data), Some(-1));
    assert_eq!(strength(&data), -1);
}

#[test]
fn contest_test() {
    let data = vec![
        full("Dasher", 5, 50.4, 80, 36, 9001, "hay", 2),
        full("Dancer", 6, 48.2, 65, 37, 4004, "grass", 5),
    ];
    let results = ContestResults::new(data);
    assert_eq!(
        results.fastest,
        "Speeding past the finish line with a strength of 5 is Dasher".to_string()
    );
    assert_eq!(
        results.tallest,
        "Dasher is standing tall with his 36 cm wide antlers".to_string()
    );
    assert_eq!(
        results.magician,
        "Dasher could blast you away with a snow magic power of 9001".to_string()
    );
    assert_eq!(
        results.consumer,
        "Dancer ate lots of candies, but also some grass".to_string()
    );
}

#[test]
fn contest_ties_go_to_the_last() {
    let data = vec![
        full("First", -12, 1.5, 10, 3, 7, "hay", 1),
        full("Second", 0, 1.5, 10, -4, 7, "hay", 1),
    ];
    let results = ContestResults::new(data);
    assert_eq!(
        results.fastest,
        "Speeding past the finish line with a strength of 0 is Second"
    );
    assert_eq!(results.tallest, "Second is standing tall with his -4 cm wide antlers");
    assert_eq!(results.magician, "Second could blast you away with a snow magic power of 7");
    assert_eq!(results.consumer, "Second ate lots of candies, but also some grass");
}

#[test]
fn contest_negative_numbers_and_single_reindeer() {
    let data = vec![full("Solo", -2147483648, -3.0, -5, -2147483648, -1, "", 0)];
    let results = ContestResults::new(data);
    assert_eq!(
        results.fastest,
        "Speeding past the finish line with a strength of -2147483648 is Solo"
    );
    assert_eq!(results.tallest, "Solo is standing tall with his -2147483648 cm wide antlers");
    assert_eq!(results.magician, "Solo could blast you away with a snow magic power of -1");
}

#[test]
fn speed_rank_follows_total_order() {
    let speeds = [
        f64::NEG_INFINITY,
        -50.0,
        -0.5,
        -0.0,
        0.0,
        1e-300,
        0.5,
        48.2,
        50.4,
        f64::INFINITY,
    ];
    for w in speeds.windows(2) {
        assert!(speed_rank(w[0].to_bits()) < speed_rank(w[1].to_bits()));
        assert_eq!(
            speed_rank(w[0].to_bits()).cmp(&speed_rank(w[1].to_bits())),
            w[0].total_cmp(&w[1])
        );
    }
    assert_eq!(speed_rank(0f64.to_bits()), 0);
    assert_eq!(speed_rank((-0.0f64).to_bits()), -1);
}

#[test]
fn speed_bits_undo_speed_rank() {
    for x in [0u64, 1, 0x7fff_ffff_ffff_ffff, 0x8000_0000_0000_0000, u64::MAX, 12345] {
        assert_eq!(speed_bits(speed_rank(x)), x);
    }
    for r in [0i64, -1, i64::MIN, i64::MAX, 42, -42] {
        assert_eq!(speed_rank(speed_bits(r)), r);
    }
}
