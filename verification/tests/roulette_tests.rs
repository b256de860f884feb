use liars_table::roulette::RouletteConfig;
use liars_table::roulette::RouletteResult;
use liars_table::roulette::chamber_outcome;
use liars_table::roulette::execute_roulette;

#[test]
fn test_execute_roulette() {
    let mut safe_count = 0;
    let mut out_count = 0;

    for _ in 0..1000 {
        match execute_roulette(6) {
            RouletteResult::Safe => safe_count += 1,
            RouletteResult::Out => out_count += 1,
        }
    }

    assert!(safe_count > 0);
    assert!(out_count > 0);

    // About one sixth of 1000 draws, with generous slack.
    assert!(out_count > 50);
    assert!(out_count < 300);
}

#[test]
fn test_extreme_cases() {
    for _ in 0..10 {
        assert_eq!(execute_roulette(1), RouletteResult::Out);
    }
}

#[test]
fn test_chamber_outcome_boundary() {
    assert_eq!(chamber_outcome(1, 1), RouletteResult::Out);
    assert_eq!(chamber_outcome(2, 1), RouletteResult::Safe);
    assert_eq!(chamber_outcome(3, 3), RouletteResult::Out);
    assert_eq!(chamber_outcome(4, 3), RouletteResult::Safe);
}

#[test]
fn test_fully_loaded_cylinder_always_out() {
    let config = RouletteConfig { chambers: 6, loaded_bullets: 6 };
    for _ in 0..100 {
        assert_eq!(config.spin(), RouletteResult::Out);
    }
}

#[test]
fn test_empty_cylinder_always_safe() {
    let config = RouletteConfig { chambers: 6, loaded_bullets: 0 };
    for _ in 0..100 {
        assert_eq!(config.spin(), RouletteResult::Safe);
    }
}

#[test]
fn test_roulette_config_new_and_default() {
    let config = RouletteConfig::new(2);
    assert_eq!(config.chambers, 6);
    assert_eq!(config.loaded_bullets, 2);

    let d = RouletteConfig::default();
    assert_eq!(d.chambers, 6);
    assert_eq!(d.loaded_bullets, 1);
}
