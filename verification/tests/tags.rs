use oxihipo::tag::check_tag_name;
use oxihipo::{HipoError, TagRegistry, TagSet};

struct Cat;

impl Cat {
    const NAMES: &'static [(&'static str, u32)] = &[("Dvcs", 0), ("Sidis", 1), ("Elastic", 2)];

    fn dvcs() -> TagSet {
        TagSet::from_index(0)
    }

    fn sidis() -> TagSet {
        TagSet::from_index(1)
    }

    fn elastic() -> TagSet {
        TagSet::from_index(2)
    }

    fn name(bit: u32) -> Option<&'static str> {
        for (n, b) in Self::NAMES {
            if *b == bit {
                return Some(n);
            }
        }
        None
    }
}

#[test]
fn flags_are_single_bits() {
    assert_eq!(Cat::dvcs().bits(), 1);
    assert_eq!(Cat::sidis().bits(), 2);
    assert_eq!(Cat::elastic().bits(), 4);
}

#[test]
fn combine_and_test() {
    let t = Cat::dvcs() | Cat::elastic();
    assert_eq!(t.bits(), 0b101);
    assert!(t.contains(Cat::dvcs()) && t.contains(Cat::elastic()));
    assert!(!t.contains(Cat::sidis()));
    assert!(t.intersects(Cat::dvcs() | Cat::sidis()));
    assert!(!t.intersects(Cat::sidis()));
}

#[test]
fn conversions_and_iter() {
    let t = Cat::sidis() | Cat::elastic();
    assert_eq!(u32::from(t), 0b110);
    assert_eq!(TagSet::from(0b110_u32), t);
    assert_eq!(t.iter_bits(), vec![1, 2]);
    assert_eq!(
        t.iter_bits().into_iter().filter_map(Cat::name).collect::<Vec<_>>(),
        vec!["Sidis", "Elastic"]
    );
}

#[test]
fn name_registry() {
    let reg = TagRegistry::from_names(Cat::NAMES);
    assert_eq!(reg.name(0), Some("Dvcs"));
    assert_eq!(reg.name(2), Some("Elastic"));
    assert_eq!(reg.name(9), None);
    assert_eq!(Cat::NAMES, &[("Dvcs", 0), ("Sidis", 1), ("Elastic", 2)]);
}

#[test]
fn empty_and_insert() {
    let mut t = TagSet::empty();
    assert!(t.is_empty());
    t.insert(Cat::dvcs());
    t.insert(Cat::sidis());
    assert_eq!(t, Cat::dvcs() | Cat::sidis());
}

#[test]
fn registry_from_names_and_lookups() {
    let reg = TagRegistry::from_names(Cat::NAMES);
    assert_eq!(reg.len(), 3);
    assert!(!reg.is_empty());
    assert_eq!(reg.position("Sidis"), Some(1));
    assert_eq!(reg.position("Nope"), None);
    assert_eq!(reg.name(2), Some("Elastic"));
    assert_eq!(reg.name(9), None);
    assert_eq!(reg.mask("Dvcs"), Some(0b001));
    assert_eq!(reg.mask("Elastic"), Some(0b100));
    assert_eq!(reg.mask("Nope"), None);
    assert_eq!(reg.mask_of(&["Dvcs", "Elastic"]), Some(0b101));
    assert_eq!(reg.mask_of(&["Dvcs", "Nope"]), None);
}

#[test]
fn registry_insert_replaces_by_name() {
    let mut reg = TagRegistry::new();
    reg.insert("dvcs", 0);
    reg.insert("dvcs", 5);
    assert_eq!(reg.len(), 1);
    assert_eq!(reg.position("dvcs"), Some(5));
}

#[test]
fn registry_text_round_trip() {
    let reg = TagRegistry::from_names(&[("Dvcs", 0), ("Sidis", 1), ("Elastic", 2)]);
    let text = reg.to_text();
    assert_eq!(text, "Dvcs=0\nSidis=1\nElastic=2\n");
    assert_eq!(TagRegistry::parse_text(&text), reg);
}

#[test]
fn registry_parse_is_tolerant() {
    let reg = TagRegistry::parse_text("  Dvcs = 0 \n\ngarbage-no-eq\nSidis=1\n=3\nBad=xyz\n");
    assert_eq!(
        reg.iter().iter().map(|(n, b)| (n.as_str(), *b)).collect::<Vec<_>>(),
        vec![("Dvcs", 0), ("Sidis", 1)]
    );
}

#[test]
fn names_that_the_text_form_cannot_hold_are_refused() {
    check_tag_name("two words").unwrap();
    for bad in ["", "a=b", "has\nnewline", "  padded  "] {
        let err = check_tag_name(bad).unwrap_err();
        assert!(
            matches!(err, HipoError::InvalidTagName { ref name, .. } if name == bad),
            "{err:?}"
        );
    }
}

#[test]
fn text_without_its_last_line_break_is_the_same_registry() {
    let reg = TagRegistry::from_names(&[("a", 3), ("b c", 31)]);
    assert_eq!(TagRegistry::parse_text(reg.to_text().trim()), reg);
}
