use hgs_cvrp::cli::{CliError, CommandLine};

fn args(list: &[&str]) -> Vec<String> {
    list.iter().map(|s| s.to_string()).collect()
}

#[test]
fn defaults_with_paths_only() {
    let cl = CommandLine::parse(&args(&["hgs", "inst.vrp", "sol.txt"])).ok().unwrap();
    assert_eq!(cl.path_instance, "inst.vrp");
    assert_eq!(cl.path_solution, "sol.txt");
    let s = cl.settings;
    assert_eq!(s.nb_granular, 20);
    assert_eq!(s.mu, 25);
    assert_eq!(s.lambda, 40);
    assert_eq!(s.nb_elite, 5);
    assert_eq!(s.nb_close, 4);
    assert_eq!(s.nb_iter_penalty_management, 100);
    assert_eq!(s.seed, 0);
    assert_eq!(s.nb_iter, 20000);
    assert_eq!(s.nb_iter_traces, 500);
    assert_eq!(s.nb_veh, None);
    assert!(s.verbose);
    assert!(s.is_rounding_integer);
    assert_eq!(s.time_limit_arg, None);
}

#[test]
fn options_are_read_in_order() {
    let a = args(&[
        "hgs", "i", "o", "-seed", "7", "-t", "2.5", "-veh", "+12", "-round", "0", "-log", "-3",
        "-nbGranular", "30", "-it", "100", "-seed", "9", "-penaltyDecrease", ".5",
    ]);
    let s = CommandLine::parse(&a).ok().unwrap().settings;
    assert_eq!(s.seed, 9);
    assert_eq!(s.time_limit_arg, Some(6));
    assert_eq!(s.nb_veh, Some(12));
    assert!(!s.is_rounding_integer);
    assert!(s.verbose);
    assert_eq!(s.nb_granular, 30);
    assert_eq!(s.nb_iter, 100);
    assert_eq!(s.penalty_decrease_arg, Some(20));
    assert_eq!(a[20].parse::<f64>().unwrap(), 0.5);
}

#[test]
fn wrong_argument_counts() {
    assert!(matches!(CommandLine::parse(&args(&["hgs", "i"])), Err(CliError::ArgumentCount)));
    assert!(matches!(
        CommandLine::parse(&args(&["hgs", "i", "o", "-t"])),
        Err(CliError::ArgumentCount)
    ));
    let mut many = vec!["hgs", "i", "o"];
    for _ in 0..17 {
        many.push("-mu");
        many.push("3");
    }
    assert_eq!(many.len(), 37);
    assert!(matches!(CommandLine::parse(&args(&many)), Err(CliError::ArgumentCount)));
    many.truncate(35);
    assert!(CommandLine::parse(&args(&many)).is_ok());
}

#[test]
fn unknown_option_is_reported_with_its_position() {
    let r = CommandLine::parse(&args(&["hgs", "i", "o", "-mu", "3", "-bogus", "1"]));
    assert!(matches!(r, Err(CliError::UnknownOption(5))));
}

#[test]
fn bad_values_are_reported_with_their_position() {
    let cases: [(&str, &str); 7] = [
        ("-it", "-1"),
        ("-it", "12a"),
        ("-seed", "18446744073709551616"),
        ("-round", ""),
        ("-t", "1e"),
        ("-targetFeasible", "."),
        ("-veh", "+"),
    ];
    for (option, value) in cases.iter() {
        let r = CommandLine::parse(&args(&["hgs", "i", "o", option, value]));
        assert!(matches!(r, Err(CliError::BadValue(4))), "{} {}", option, value);
    }
}

#[test]
fn float_options_accept_what_f64_accepts() {
    for value in ["1", "-2.", "+.5", "3e10", "4E-2", "inf", "-Infinity", "NaN", "1.5e+3"].iter() {
        let r = CommandLine::parse(&args(&["hgs", "i", "o", "-penaltyIncrease", value]));
        assert!(r.is_ok(), "{}", value);
        assert!(value.parse::<f64>().is_ok());
    }
    for value in ["", "e1", "1e", "--1", "1.2.3", "in", "nanx", " 1"].iter() {
        let r = CommandLine::parse(&args(&["hgs", "i", "o", "-penaltyIncrease", value]));
        assert!(r.is_err(), "{}", value);
        assert!(value.parse::<f64>().is_err());
    }
}
