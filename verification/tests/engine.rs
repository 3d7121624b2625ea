use diffutils::engine::{diff, Edit, Snake};

fn lines(s: &str) -> Vec<Vec<u8>> {
    s.split(' ').filter(|w| !w.is_empty()).map(|w| w.as_bytes().to_vec()).collect()
}

fn sides(edits: &[Edit<'_, Vec<u8>>]) -> (Vec<Vec<u8>>, Vec<Vec<u8>>) {
    let mut l = Vec::new();
    let mut r = Vec::new();
    for e in edits {
        match e {
            Edit::Delete(x) => l.push((*x).clone()),
            Edit::Insert(x) => r.push((*x).clone()),
            Edit::Keep(x) => {
                l.push((*x).clone());
                r.push((*x).clone());
            }
        }
    }
    (l, r)
}

fn kinds(edits: &[Edit<'_, Vec<u8>>]) -> String {
    edits
        .iter()
        .map(|e| match e {
            Edit::Delete(_) => 'D',
            Edit::Insert(_) => 'I',
            Edit::Keep(_) => 'K',
        })
        .collect()
}

#[test]
fn engine_one_changed_line() {
    let left = lines("a b c");
    let right = lines("a x c");
    let edits = diff(&left, &right);
    assert_eq!(kinds(&edits), "KDIK");
    assert_eq!(sides(&edits), (left.clone(), right.clone()));
}

#[test]
fn engine_identical_inputs_keep_everything() {
    let left = lines("a b c d e");
    let edits = diff(&left, &left);
    assert_eq!(kinds(&edits), "KKKKK");
    let empty: Vec<Vec<u8>> = Vec::new();
    assert!(diff(&empty, &empty).is_empty());
}

#[test]
fn engine_empty_sides() {
    let empty: Vec<Vec<u8>> = Vec::new();
    let some = lines("a b");
    assert_eq!(kinds(&diff(&empty, &some)), "II");
    assert_eq!(kinds(&diff(&some, &empty)), "DD");
}

#[test]
fn engine_scripts_rebuild_both_inputs() {
    let left: Vec<Vec<u8>> = (0..60).map(|i| format!("line {i}").into_bytes()).collect();
    let mut right = left.clone();
    right.remove(5);
    right.insert(20, b"new".to_vec());
    right[40] = b"changed".to_vec();
    right.push(b"tail".to_vec());
    let edits = diff(&left, &right);
    assert_eq!(sides(&edits), (left.clone(), right.clone()));
    let kept = edits.iter().filter(|e| matches!(e, Edit::Keep(_))).count();
    assert!(kept >= 50);

    let a = lines("x y z w v");
    let b = lines("v w z y x");
    let edits = diff(&a, &b);
    assert_eq!(sides(&edits), (a.clone(), b.clone()));
}

#[test]
fn engine_snake_updates() {
    let mut s = Snake { x: 0, y: 0, length: 0 };
    s.maybe_set(3, 4);
    assert_eq!(s, Snake { x: 3, y: 4, length: 0 });
    s.maybe_update(1, 2, 5);
    assert_eq!(s, Snake { x: 1, y: 2, length: 5 });
    s.maybe_update(7, 7, 4);
    s.maybe_set(9, 9);
    assert_eq!(s, Snake { x: 1, y: 2, length: 5 });
    assert!(!s.is_good());
    s.maybe_update(0, 0, 21);
    assert!(s.is_good());
}

#[test]
fn engine_common_ends_are_kept() {
    let left = lines("a b c");
    let right = lines("a d c");
    let edits = diff(&left, &right);
    assert_eq!(kinds(&edits), "KDIK");
    let left = lines("x y p q r s t");
    let right = lines("x y z s t");
    let edits = diff(&left, &right);
    let k = kinds(&edits);
    assert!(k.starts_with("KK") && k.ends_with("KK"));
    assert_eq!(sides(&edits), (left.clone(), right.clone()));
}

#[test]
fn engine_gives_up_where_the_search_finds_no_run() {
    // The search meets without following any shared line, so the middle is
    // dropped and added whole (the lines `a` are shared, but no run is found).
    let left = lines("a a");
    let right = lines("b a a b a b b b");
    let edits = diff(&left, &right);
    assert_eq!(kinds(&edits), "DDIIIIIIII");
    assert_eq!(sides(&edits), (left.clone(), right.clone()));
}

#[test]
fn engine_one_block_added_or_removed() {
    let left = lines("a b c");
    let right = lines("a x y b c");
    assert_eq!(kinds(&diff(&left, &right)), "KIIKK");
    assert_eq!(kinds(&diff(&right, &left)), "KDDKK");
}

#[test]
fn engine_keeps_the_shared_middle_line() {
    let left = lines("x c y");
    let right = lines("z c w");
    let edits = diff(&left, &right);
    assert_eq!(kinds(&edits), "DIKDI");
    assert_eq!(sides(&edits), (left.clone(), right.clone()));
}
