use auto_import::candidates::CandidateSet;

#[test]
fn a_set_holds_each_candidate_once() {
    let mut set = CandidateSet::new();
    assert_eq!(set.len(), 0);
    assert!(!set.contains("a::B"));
    assert!(set.insert("a::B".to_string()));
    assert!(set.insert("c::D".to_string()));
    assert!(!set.insert("a::B".to_string()));
    assert_eq!(set.len(), 2);
    assert!(set.contains("a::B"));
    assert!(set.contains("c::D"));
    assert!(!set.contains("a::b"));
    assert_eq!(set.members(), &vec!["a::B".to_string(), "c::D".to_string()]);
}
