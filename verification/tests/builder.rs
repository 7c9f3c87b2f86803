use codimate::builder::ExplanationBuilder;

type Builder = ExplanationBuilder<u32, &'static str, char, u8>;

#[test]
fn a_new_builder_starts_empty_with_the_default_timing() {
    let b: Builder = ExplanationBuilder::new("sort");
    assert_eq!(b.name, "sort");
    assert!(b.state.is_none() && b.algorithm.is_none() && b.motion.is_none());
    assert_eq!(b.timing, 0);
}

#[test]
fn take_returns_everything_once_set() {
    let b: Builder = ExplanationBuilder::new("sort").state(7).algorithm("bubble").motion('m').timing(3);
    assert_eq!(b.take(), Ok((7, "bubble", 'm', 3)));
}

#[test]
fn take_names_the_first_missing_field() {
    let b: Builder = ExplanationBuilder::new("x");
    assert_eq!(b.take(), Err("state"));
    let b: Builder = ExplanationBuilder::new("x").state(1).motion('m');
    assert_eq!(b.take(), Err("algorithm"));
    let b: Builder = ExplanationBuilder::new("x").algorithm("a").state(1);
    assert_eq!(b.take(), Err("motion"));
}

#[test]
fn view_leaves_the_builder_as_it_was() {
    let b: Builder = ExplanationBuilder::new("x").state(5).view(|| 42u64);
    assert_eq!(b.state, Some(5));
    assert_eq!(b.take(), Err("algorithm"));
}

#[test]
fn the_timing_defaults_to_unit() {
    let b: ExplanationBuilder<u8, u8, u8> = ExplanationBuilder::new("unit");
    assert_eq!(b.state(1).algorithm(2).motion(3).take(), Ok((1, 2, 3, ())));
}
