use hack_hdsim_lib::chip::{
    BuiltinChips, Child, ChildConnection, Chip, Pinline, PinlineConnection, PinlinesMethods,
    WiringError,
};
use hack_hdsim_lib::And2;

#[test]
fn nand() {
    let mut chip = Chip::new_builtin(BuiltinChips::Nand);
    let mut res_expected = vec![Pinline::new("out", vec![true])];
    let mut res_actual = chip.evaluate();
    assert_eq!(res_actual, &res_expected);

    chip.pinlines.input.set_pinline(Pinline::new("a", vec![true]));
    res_actual = chip.evaluate();
    assert_eq!(res_actual, &res_expected);

    res_expected[0].pins[0] = false;

    chip.pinlines.input.set_pinline(Pinline::new("b", vec![true]));
    res_actual = chip.evaluate();
    assert_eq!(res_actual, &res_expected);

    res_expected[0].pins[0] = true;

    chip.pinlines.input.set_pinline(Pinline::new("a", vec![false]));
    res_actual = chip.evaluate();
    assert_eq!(res_actual, &res_expected);
}

#[test]
fn not() {
    let mut chip = Chip::new_builtin(BuiltinChips::Not);
    let mut res_expected = vec![Pinline::new("out", vec![true])];
    let mut res_actual = chip.evaluate();
    assert_eq!(res_actual, &res_expected);

    res_expected[0].pins[0] = false;

    chip.pinlines.input.set_pinline(Pinline::new("in", vec![true]));
    res_actual = chip.evaluate();
    assert_eq!(res_actual, &res_expected);
}

#[test]
fn dff() {
    let mut chip = Chip::new_builtin(BuiltinChips::DFF);
    let mut res_expected = vec![Pinline::new("out", vec![false])];
    chip.pinlines.input.set_pinline(Pinline::new("in", vec![true]));
    chip.read_input();
    let mut res_actual = chip.produce_output();
    assert_eq!(res_actual, &res_expected);

    res_expected[0].pins[0] = true;

    chip.pinlines.input.set_pinline(Pinline::new("in", vec![false]));
    chip.read_input();
    res_actual = chip.produce_output();
    assert_eq!(res_actual, &res_expected);

    res_expected[0].pins[0] = false;
    chip.read_input();
    res_actual = chip.produce_output();
    assert_eq!(res_actual, &res_expected);
}

#[test]
fn mux() {
    let mut chip = Chip::new_builtin(BuiltinChips::Mux);
    let mut res_expected = vec![Pinline::new("out", vec![false])];
    chip.pinlines.input.set_pinline(Pinline::new("b", vec![true]));
    let mut res_actual = chip.evaluate();
    assert_eq!(res_actual, &res_expected);

    res_expected[0].pins[0] = true;

    chip.pinlines.input.set_pinline(Pinline::new("sel", vec![true]));
    res_actual = chip.evaluate();
    assert_eq!(res_actual, &res_expected);

    chip.pinlines.input.set_pinlines(vec![
        Pinline::new("a", vec![true]),
        Pinline::new("b", vec![false]),
        Pinline::new("sel", vec![false]),
    ]);
    res_actual = chip.evaluate();
    assert_eq!(res_actual, &res_expected);
}

fn test_bit(mut chip: Chip) {
    let mut res_expected = vec![Pinline::new("out", vec![false])];
    chip.pinlines.input.set_pinlines(vec![
        Pinline::new("in", vec![true]),
        Pinline::new("load", vec![true]),
    ]);
    chip.read_input();
    let mut res_actual = chip.produce_output();
    assert_eq!(res_actual, &res_expected);

    res_expected[0].pins[0] = true;

    chip.pinlines.input.set_pinline(Pinline::new("in", vec![false]));

    chip.read_input();
    res_actual = chip.produce_output();
    assert_eq!(res_actual, &res_expected);

    res_expected[0].pins[0] = false;

    chip.read_input();
    res_actual = chip.produce_output();
    assert_eq!(res_actual, &res_expected);

    chip.pinlines.input.set_pinlines(vec![
        Pinline::new("in", vec![true]),
        Pinline::new("load", vec![false]),
    ]);

    chip.read_input();
    res_actual = chip.produce_output();
    assert_eq!(res_actual, &res_expected);

    chip.read_input();
    res_actual = chip.produce_output();
    assert_eq!(res_actual, &res_expected);
}

#[test]
fn bit() {
    let chip = Chip::new_builtin(BuiltinChips::Bit);
    test_bit(chip);
}

fn construct_custom_and() -> Chip {
    Chip::new_custom(
        "And",
        vec![
            Pinline::with_capacity("a", 1),
            Pinline::with_capacity("b", 1),
        ],
        vec![Pinline::with_capacity("out", 1)],
        vec![
            Child::new(
                Chip::new_builtin(BuiltinChips::Nand),
                vec![
                    ChildConnection::new(
                        PinlineConnection::new("a", vec![0]),
                        PinlineConnection::new("a", vec![0]),
                    ),
                    ChildConnection::new(
                        PinlineConnection::new("b", vec![0]),
                        PinlineConnection::new("b", vec![0]),
                    ),
                    ChildConnection::new(
                        PinlineConnection::new("out", vec![0]),
                        PinlineConnection::new("c", vec![0]),
                    ),
                ],
            ),
            Child::new(
                Chip::new_builtin(BuiltinChips::Nand),
                vec![
                    ChildConnection::new(
                        PinlineConnection::new("a", vec![0]),
                        PinlineConnection::new("c", vec![0]),
                    ),
                    ChildConnection::new(
                        PinlineConnection::new("b", vec![0]),
                        PinlineConnection::new("c", vec![0]),
                    ),
                    ChildConnection::new(
                        PinlineConnection::new("out", vec![0]),
                        PinlineConnection::new("out", vec![0]),
                    ),
                ],
            ),
        ],
    )
    .unwrap()
}

fn construct_custom_bit() -> Chip {
    Chip::new_custom(
        "Bit",
        vec![
            Pinline::with_capacity("in", 1),
            Pinline::with_capacity("load", 1),
        ],
        vec![Pinline::with_capacity("out", 1)],
        vec![
            Child::new(
                Chip::new_builtin(BuiltinChips::Mux),
                vec![
                    ChildConnection::new(
                        PinlineConnection::new("b", vec![0]),
                        PinlineConnection::new("in", vec![0]),
                    ),
                    ChildConnection::new(
                        PinlineConnection::new("a", vec![0]),
                        PinlineConnection::new("checkout", vec![0]),
                    ),
                    ChildConnection::new(
                        PinlineConnection::new("sel", vec![0]),
                        PinlineConnection::new("load", vec![0]),
                    ),
                    ChildConnection::new(
                        PinlineConnection::new("out", vec![0]),
                        PinlineConnection::new("int", vec![0]),
                    ),
                ],
            ),
            Child::new(
                Chip::new_builtin(BuiltinChips::DFF),
                vec![
                    ChildConnection::new(
                        PinlineConnection::new("in", vec![0]),
                        PinlineConnection::new("int", vec![0]),
                    ),
                    ChildConnection::new(
                        PinlineConnection::new("out", vec![0]),
                        PinlineConnection::new("out", vec![0]),
                    ),
                    ChildConnection::new(
                        PinlineConnection::new("out", vec![0]),
                        PinlineConnection::new("checkout", vec![0]),
                    ),
                ],
            ),
        ],
    )
    .unwrap()
}

#[test]
fn internal_pins() {
    let and = construct_custom_and();
    assert_eq!(and.pinlines.internal, vec![Pinline::with_capacity("c", 1)]);
}

#[test]
fn custom_unclocked() {
    let mut and = construct_custom_and();
    let mut res_expected = vec![Pinline::new("out", vec![false])];
    let mut res_actual = and.evaluate();
    assert_eq!(&res_expected, res_actual);

    and.pinlines.input.set_pinline(Pinline::new("a", vec![true]));
    res_actual = and.evaluate();
    assert_eq!(&res_expected, res_actual);

    res_expected[0].pins[0] = true;

    and.pinlines.input.set_pinline(Pinline::new("b", vec![true]));
    res_actual = and.evaluate();
    assert_eq!(&res_expected, res_actual);

    res_expected[0].pins[0] = false;

    and.pinlines.input.set_pinline(Pinline::new("a", vec![false]));
    res_actual = and.evaluate();
    assert_eq!(&res_expected, res_actual);
}

#[test]
fn custom_clocked() {
    let bit = construct_custom_bit();
    test_bit(bit)
}

#[test]
fn evaluate_twice_builtin_unchanged() {
    let mut chip = Chip::new_builtin(BuiltinChips::Nand);
    chip.pinlines.input.set_pinlines(vec![
        Pinline::new("a", vec![true]),
        Pinline::new("b", vec![true]),
    ]);
    let first = chip.evaluate().clone();
    let second = chip.evaluate().clone();
    assert_eq!(first, second);
    assert_eq!(first, vec![Pinline::new("out", vec![false])]);
}

#[test]
fn evaluate_twice_composite_unchanged() {
    let mut and = construct_custom_and();
    and.pinlines.input.set_pinlines(vec![
        Pinline::new("a", vec![true]),
        Pinline::new("b", vec![true]),
    ]);
    let first = and.evaluate().clone();
    let second = and.evaluate().clone();
    assert_eq!(first, second);
    assert_eq!(first, vec![Pinline::new("out", vec![true])]);
}

#[test]
fn duplicate_pinline_name_rejected() {
    let r = Chip::new_custom(
        "Bad",
        vec![
            Pinline::with_capacity("a", 1),
            Pinline::with_capacity("a", 1),
        ],
        vec![Pinline::with_capacity("out", 1)],
        vec![Child::new(
            Chip::new_builtin(BuiltinChips::Not),
            vec![
                ChildConnection::new(
                    PinlineConnection::new("in", vec![0]),
                    PinlineConnection::new("a", vec![0]),
                ),
                ChildConnection::new(
                    PinlineConnection::new("out", vec![0]),
                    PinlineConnection::new("out", vec![0]),
                ),
            ],
        )],
    );
    assert_eq!(r.unwrap_err(), WiringError::DuplicatePinlineName);
}

#[test]
fn width_mismatch_rejected() {
    let r = Chip::new_custom(
        "Bad",
        vec![Pinline::with_capacity("a", 1)],
        vec![Pinline::with_capacity("out", 1)],
        vec![Child::new(
            Chip::new_builtin(BuiltinChips::Not),
            vec![
                ChildConnection::new(
                    PinlineConnection::new("in", vec![0]),
                    PinlineConnection::new("a", vec![0, 0]),
                ),
                ChildConnection::new(
                    PinlineConnection::new("out", vec![0]),
                    PinlineConnection::new("out", vec![0]),
                ),
            ],
        )],
    );
    assert_eq!(r.unwrap_err(), WiringError::WidthMismatch);
}

#[test]
fn foreign_index_out_of_range_rejected() {
    let r = Chip::new_custom(
        "Bad",
        vec![Pinline::with_capacity("a", 1)],
        vec![Pinline::with_capacity("out", 1)],
        vec![Child::new(
            Chip::new_builtin(BuiltinChips::Not),
            vec![
                ChildConnection::new(
                    PinlineConnection::new("in", vec![0]),
                    PinlineConnection::new("a", vec![3]),
                ),
                ChildConnection::new(
                    PinlineConnection::new("out", vec![0]),
                    PinlineConnection::new("out", vec![0]),
                ),
            ],
        )],
    );
    assert_eq!(r.unwrap_err(), WiringError::ForeignIndexOutOfRange);
}

#[test]
fn duplicate_output_assignment_rejected() {
    let r = Chip::new_custom(
        "Bad",
        vec![
            Pinline::with_capacity("a", 1),
            Pinline::with_capacity("b", 1),
        ],
        vec![Pinline::with_capacity("out", 1)],
        vec![
            Child::new(
                Chip::new_builtin(BuiltinChips::Not),
                vec![
                    ChildConnection::new(
                        PinlineConnection::new("in", vec![0]),
                        PinlineConnection::new("a", vec![0]),
                    ),
                    ChildConnection::new(
                        PinlineConnection::new("out", vec![0]),
                        PinlineConnection::new("out", vec![0]),
                    ),
                ],
            ),
            Child::new(
                Chip::new_builtin(BuiltinChips::Not),
                vec![
                    ChildConnection::new(
                        PinlineConnection::new("in", vec![0]),
                        PinlineConnection::new("b", vec![0]),
                    ),
                    ChildConnection::new(
                        PinlineConnection::new("out", vec![0]),
                        PinlineConnection::new("out", vec![0]),
                    ),
                ],
            ),
        ],
    );
    assert_eq!(r.unwrap_err(), WiringError::DuplicateOutputAssignment);
}

#[test]
fn missing_child_pinline_rejected() {
    // `Child::new` keeps the connection whose own name matches no child
    // pinline, and construction rejects it.
    let r = Chip::new_custom(
        "Bad",
        vec![Pinline::with_capacity("a", 1)],
        vec![Pinline::with_capacity("out", 1)],
        vec![Child::new(
            Chip::new_builtin(BuiltinChips::Not),
            vec![
                ChildConnection::new(
                    PinlineConnection::new("nosuch", vec![0]),
                    PinlineConnection::new("a", vec![0]),
                ),
                ChildConnection::new(
                    PinlineConnection::new("out", vec![0]),
                    PinlineConnection::new("out", vec![0]),
                ),
            ],
        )],
    );
    assert_eq!(r.unwrap_err(), WiringError::MissingChildPinline);
}

#[test]
fn internal_reuse_width_mismatch_rejected() {
    // A chip with a two-pin input bus, to give a connection a fan-out of two.
    let wide = Chip::new_custom(
        "Wide",
        vec![Pinline::with_capacity("w", 2)],
        vec![Pinline::with_capacity("out", 1)],
        vec![Child::new(
            Chip::new_builtin(BuiltinChips::Not),
            vec![
                ChildConnection::new(
                    PinlineConnection::new("in", vec![0]),
                    PinlineConnection::new("w", vec![0]),
                ),
                ChildConnection::new(
                    PinlineConnection::new("out", vec![0]),
                    PinlineConnection::new("out", vec![0]),
                ),
            ],
        )],
    )
    .unwrap();
    // The first child derives internal pinline c with width 1; the second
    // child reuses c with a fan-out of two, which must be rejected.
    let r = Chip::new_custom(
        "Bad",
        vec![Pinline::with_capacity("a", 1)],
        vec![Pinline::with_capacity("out", 1)],
        vec![
            Child::new(
                Chip::new_builtin(BuiltinChips::Not),
                vec![
                    ChildConnection::new(
                        PinlineConnection::new("in", vec![0]),
                        PinlineConnection::new("a", vec![0]),
                    ),
                    ChildConnection::new(
                        PinlineConnection::new("out", vec![0]),
                        PinlineConnection::new("c", vec![0]),
                    ),
                ],
            ),
            Child::new(
                wide,
                vec![
                    ChildConnection::new(
                        PinlineConnection::new("w", vec![0, 1]),
                        PinlineConnection::new("c", vec![0, 0]),
                    ),
                    ChildConnection::new(
                        PinlineConnection::new("out", vec![0]),
                        PinlineConnection::new("out", vec![0]),
                    ),
                ],
            ),
        ],
    );
    assert_eq!(r.unwrap_err(), WiringError::ParentWidthMismatch);
}

#[test]
fn and2_gate() {
    let mut g = And2::new(true, false);
    assert_eq!(g.in_a(), true);
    assert_eq!(g.in_b(), false);
    assert_eq!(g.out(), false);
    assert_eq!(g.set_input(true, true), true);
    assert_eq!(g.out(), true);
    assert_eq!(g.set_input(false, true), false);
}

#[test]
fn get_pin_and_counts() {
    let pl = Pinline::new("bus", vec![true, false, true]);
    assert_eq!(pl.get_pin(0), true);
    assert_eq!(pl.get_pin(1), false);
    assert_eq!(pl.get_pin(2), true);
    let conn = PinlineConnection::new("bus", vec![0, 2]);
    assert_eq!(conn.get_pin_count(), 2);
}

#[test]
fn missing_parent_pinline_rejected() {
    // An input connection may draw only on the parent's input and internal
    // pinlines; naming an output pinline is rejected.
    let r = Chip::new_custom(
        "Bad",
        vec![Pinline::with_capacity("a", 1)],
        vec![Pinline::with_capacity("out", 1)],
        vec![Child::new(
            Chip::new_builtin(BuiltinChips::Not),
            vec![
                ChildConnection::new(
                    PinlineConnection::new("in", vec![0]),
                    PinlineConnection::new("out", vec![0]),
                ),
                ChildConnection::new(
                    PinlineConnection::new("out", vec![0]),
                    PinlineConnection::new("out", vec![0]),
                ),
            ],
        )],
    );
    assert_eq!(r.unwrap_err(), WiringError::MissingParentPinline);
}

#[test]
fn child_width_mismatch_rejected() {
    let r = Chip::new_custom(
        "Bad",
        vec![Pinline::with_capacity("a", 2)],
        vec![Pinline::with_capacity("out", 1)],
        vec![Child::new(
            Chip::new_builtin(BuiltinChips::Not),
            vec![
                ChildConnection::new(
                    PinlineConnection::new("in", vec![0, 0]),
                    PinlineConnection::new("a", vec![0, 1]),
                ),
                ChildConnection::new(
                    PinlineConnection::new("out", vec![0]),
                    PinlineConnection::new("out", vec![0]),
                ),
            ],
        )],
    );
    assert_eq!(r.unwrap_err(), WiringError::ChildWidthMismatch);
}

#[test]
fn own_index_out_of_range_rejected() {
    let r = Chip::new_custom(
        "Bad",
        vec![Pinline::with_capacity("a", 1)],
        vec![Pinline::with_capacity("out", 1)],
        vec![Child::new(
            Chip::new_builtin(BuiltinChips::Not),
            vec![
                ChildConnection::new(
                    PinlineConnection::new("in", vec![1]),
                    PinlineConnection::new("a", vec![0]),
                ),
                ChildConnection::new(
                    PinlineConnection::new("out", vec![0]),
                    PinlineConnection::new("out", vec![0]),
                ),
            ],
        )],
    );
    assert_eq!(r.unwrap_err(), WiringError::OwnIndexOutOfRange);
}

#[test]
fn parent_width_mismatch_rejected() {
    // An output connection must cover the whole parent pinline it writes.
    let r = Chip::new_custom(
        "Bad",
        vec![Pinline::with_capacity("a", 1)],
        vec![Pinline::with_capacity("out", 2)],
        vec![Child::new(
            Chip::new_builtin(BuiltinChips::Not),
            vec![
                ChildConnection::new(
                    PinlineConnection::new("in", vec![0]),
                    PinlineConnection::new("a", vec![0]),
                ),
                ChildConnection::new(
                    PinlineConnection::new("out", vec![0]),
                    PinlineConnection::new("out", vec![0]),
                ),
            ],
        )],
    );
    assert_eq!(r.unwrap_err(), WiringError::ParentWidthMismatch);
}
