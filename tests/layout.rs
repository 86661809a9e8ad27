use rglgen::features::{Owner, OwnerMap};
use rglgen::procs::sort_commands;
use rglgen::used_identifiers::{used_identifiers_from_text, UsedIdentifiers};

fn owners(pairs: &[(&str, Option<&str>)]) -> OwnerMap {
    let mut m = OwnerMap::new();
    for (n, o) in pairs {
        let owner = match o {
            None => Owner::Core,
            Some(e) => Owner::Extension(e.to_string()),
        };
        m.require(&n.to_string(), &owner);
    }
    m
}

fn strings(v: &[&str]) -> Vec<String> {
    v.iter().map(|s| s.to_string()).collect()
}

fn owner_name(o: &Owner) -> Option<String> {
    match o {
        Owner::Core => None,
        Owner::Extension(e) => Some(e.clone()),
    }
}

#[test]
fn core_then_extensions_in_request_order() {
    let m = owners(&[
        ("glA1", Some("GL_A")), ("glB1", Some("GL_B")), ("glC1", None), ("glC2", None),
        ("glA2", Some("GL_A")), ("glC3", None),
    ]);
    let order = strings(&["glA1", "glA2", "glB1", "glC1", "glC2", "glC3"]);
    let layout = sort_commands(&UsedIdentifiers::NotApplicable, &m, &order, &strings(&["GL_A", "GL_B"]));
    assert_eq!(layout.sorted, strings(&["glC1", "glC2", "glC3", "glA1", "glA2", "glB1"]));
    let ranges: Vec<(Option<String>, usize, usize)> =
        layout.ranges.iter().map(|r| (owner_name(&r.owner), r.start, r.end)).collect();
    assert_eq!(ranges, vec![
        (None, 0, 3),
        (Some("GL_A".to_string()), 3, 5),
        (Some("GL_B".to_string()), 5, 6),
    ]);
    assert_eq!(layout.range_of(&Owner::Extension("GL_A".to_string())), Some((3, 5)));
    assert_eq!(layout.index_of("glB1"), Some(5));
    assert_eq!(layout.index_of("glMissing"), None);
}

#[test]
fn ranges_tile_the_table() {
    let m = owners(&[("a", Some("E2")), ("b", None), ("c", Some("E1")), ("d", Some("E2")), ("e", Some("E3"))]);
    let order = strings(&["a", "b", "c", "d", "e", "f"]);
    let layout = sort_commands(&UsedIdentifiers::NotApplicable, &m, &order, &strings(&["E1", "E2"]));
    assert_eq!(layout.sorted.len(), 4);
    let mut next = 0;
    for r in &layout.ranges {
        assert_eq!(r.start, next);
        assert!(r.end > r.start);
        for i in r.start..r.end {
            assert_eq!(owner_name(&layout.owners[i]), owner_name(&r.owner));
        }
        next = r.end;
    }
    assert_eq!(next, layout.sorted.len());
}

#[test]
fn allow_list_filters_commands() {
    let m = owners(&[("glA", None), ("glB", None), ("glX", Some("GL_X"))]);
    let used = used_identifiers_from_text("glB\r\nglX\nGL_UNKNOWN\n");
    let layout = sort_commands(&used, &m, &strings(&["glA", "glB", "glX"]), &strings(&["GL_X"]));
    assert_eq!(layout.sorted, strings(&["glB", "glX"]));
    assert!(used.contains("glB"));
    assert!(!used.contains("glA"));
}

#[test]
fn empty_selection_has_no_ranges() {
    let m = owners(&[]);
    let layout = sort_commands(&UsedIdentifiers::NotApplicable, &m, &strings(&["glA"]), &strings(&[]));
    assert!(layout.sorted.is_empty());
    assert!(layout.ranges.is_empty());
}
