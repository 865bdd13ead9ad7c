use fed_mrmr::dataset::{Dataset, DatasetError, Merge};

const SMALL: &str = "a,b,class\n1,x,yes\n2,x,no\n1,y,yes\n";

fn strings(v: &[&str]) -> Vec<String> {
    v.iter().map(|s| s.to_string()).collect()
}

fn small() -> Dataset {
    Dataset::new(SMALL.as_bytes()).unwrap()
}

#[test]
fn reads_headers_and_instances() {
    let d = small();
    assert_eq!(d.get_headers(), &strings(&["a", "b", "class"]));
    assert_eq!(d.get_instances(), 3);
}

#[test]
fn sub_features_are_sorted_per_feature() {
    let d = small();
    assert_eq!(
        d.get_subheaders(),
        vec![
            ("a".to_string(), strings(&["a_1", "a_2"])),
            ("b".to_string(), strings(&["b_x", "b_y"])),
            ("class".to_string(), strings(&["class_no", "class_yes"])),
        ]
    );
    assert_eq!(
        d.get_subheader_names(),
        &strings(&["a_1", "a_2", "b_x", "b_y", "class_no", "class_yes"])
    );
}

#[test]
fn values_sort_by_characters_not_numbers() {
    let d = Dataset::new("f\n9\n10\n9\n".as_bytes()).unwrap();
    assert_eq!(d.get_header_values("f"), Some(&strings(&["f_10", "f_9"])));
}

#[test]
fn intersection_counts_records_with_both() {
    let d = small();
    assert_eq!(d.intersection("a_1", "class_yes"), Some(2));
    assert_eq!(d.intersection("a_1", "a_1"), Some(2));
    assert_eq!(d.intersection("a_2", "class_yes"), Some(0));
    assert_eq!(d.intersection("b_x", "class_no"), Some(1));
    assert_eq!(d.intersection("b_y", "b_x"), Some(0));
}

#[test]
fn intersection_of_unknown_name_is_none() {
    let d = small();
    assert_eq!(d.intersection("a_3", "a_1"), None);
    assert_eq!(d.intersection("a_1", "nothing"), None);
}

#[test]
fn matrix_is_square_by_columns() {
    let d = small();
    let m = d.get_matrix();
    assert_eq!(m.len(), 6);
    assert!(m.iter().all(|c| c.len() == 6));
    // column class_yes (5), row a_1 (0)
    assert_eq!(m[5][0], 2);
    // diagonal: a_1 twice, a_2 once, b_x twice, b_y once, no once, yes twice
    let diag: Vec<isize> = (0..6).map(|i| m[i][i]).collect();
    assert_eq!(diag, vec![2, 1, 2, 1, 1, 2]);
}

#[test]
fn header_values_lookup() {
    let d = small();
    assert_eq!(d.get_header_values("b"), Some(&strings(&["b_x", "b_y"])));
    assert_eq!(d.get_header_values("missing"), None);
}

#[test]
fn unreadable_header_row_is_a_csv_error() {
    let bytes: &[u8] = &[0xff, 0xfe, b',', b'a', b'\n', b'1', b',', b'2', b'\n'];
    match Dataset::new(bytes) {
        Err(DatasetError::Csv(_)) => {}
        other => panic!("expected a csv error, got {:?}", other.map(|d| d.get_instances())),
    }
}

#[test]
fn records_of_other_length_are_skipped() {
    let d = Dataset::new("a,b\n1,2\n3\n4,5\n".as_bytes()).unwrap();
    assert_eq!(d.get_instances(), 2);
    assert_eq!(d.get_header_values("a"), Some(&strings(&["a_1", "a_4"])));
}

#[test]
fn empty_text_gives_empty_dataset() {
    let d = Dataset::new("".as_bytes()).unwrap();
    assert_eq!(d.get_instances(), 0);
    assert!(d.get_headers().is_empty());
    assert!(d.get_matrix().is_empty());
}

#[test]
fn headers_without_records() {
    let d = Dataset::new("a,b\n".as_bytes()).unwrap();
    assert_eq!(d.get_headers(), &strings(&["a", "b"]));
    assert_eq!(
        d.get_subheaders(),
        vec![("a".to_string(), Vec::<String>::new()), ("b".to_string(), Vec::new())]
    );
    assert_eq!(d.get_instances(), 0);
}

#[test]
fn from_records_matches_new() {
    let headers = strings(&["a", "b", "class"]);
    let records = vec![
        strings(&["1", "x", "yes"]),
        strings(&["2", "x", "no"]),
        strings(&["1", "y", "yes"]),
    ];
    let d = Dataset::from_records(&headers, &records);
    let e = small();
    assert_eq!(d.get_subheaders(), e.get_subheaders());
    assert_eq!(d.get_matrix(), e.get_matrix());
    assert_eq!(d.get_instances(), e.get_instances());
}

#[test]
fn mutual_info_counts_per_pair() {
    let d = small();
    let counts = d.mutual_info_counts("a", "class").unwrap();
    // rows: a_1, a_2; columns: class_no, class_yes
    assert_eq!(counts, vec![vec![(2, 1, 0), (2, 2, 2)], vec![(1, 1, 1), (1, 2, 0)]]);
    assert_eq!(d.mutual_info_counts("a", "zzz"), None);
    assert_eq!(d.mutual_info_counts("zzz", "a"), None);
}

#[test]
fn merge_of_parts_equals_whole() {
    let whole = small();
    let p1 = Dataset::new("a,b,class\n1,x,yes\n".as_bytes()).unwrap();
    let p2 = Dataset::new("a,b,class\n2,x,no\n1,y,yes\n".as_bytes()).unwrap();
    let merged = p1.merge(p2);
    assert_eq!(merged.get_instances(), 3);
    assert_eq!(merged.get_subheaders(), whole.get_subheaders());
    let names = whole.get_subheader_names().clone();
    for x in &names {
        for y in &names {
            assert_eq!(merged.intersection(x, y), whole.intersection(x, y), "{} {}", x, y);
        }
    }
}

#[test]
fn merge_sorts_headers_and_fills_missing_with_zero() {
    let p1 = Dataset::new("z,a\n1,u\n".as_bytes()).unwrap();
    let p2 = Dataset::new("a,m\nv,2\n".as_bytes()).unwrap();
    let merged = p1.merge(p2);
    assert_eq!(merged.get_headers(), &strings(&["a", "m", "z"]));
    assert_eq!(merged.get_header_values("a"), Some(&strings(&["a_u", "a_v"])));
    assert_eq!(merged.get_instances(), 2);
    assert_eq!(merged.intersection("a_u", "z_1"), Some(1));
    assert_eq!(merged.intersection("a_v", "m_2"), Some(1));
    assert_eq!(merged.intersection("z_1", "m_2"), Some(0));
    assert_eq!(merged.intersection("a_u", "a_v"), Some(0));
}

#[test]
fn merge_is_commutative() {
    let p1 = Dataset::new("z,a\n1,u\n2,u\n".as_bytes()).unwrap();
    let p2 = Dataset::new("a,m\nv,2\n".as_bytes()).unwrap();
    let q1 = Dataset::new("z,a\n1,u\n2,u\n".as_bytes()).unwrap();
    let q2 = Dataset::new("a,m\nv,2\n".as_bytes()).unwrap();
    let ab = p1.merge(p2);
    let ba = q2.merge(q1);
    assert_eq!(ab.get_headers(), ba.get_headers());
    assert_eq!(ab.get_subheaders(), ba.get_subheaders());
    assert_eq!(ab.get_matrix(), ba.get_matrix());
    assert_eq!(ab.get_instances(), ba.get_instances());
}

#[test]
fn merge_with_list_folds_in_order() {
    let text = ["a,c\n1,y\n", "a,c\n2,n\n", "a,c\n1,n\n"];
    let first = Dataset::new(text[0].as_bytes()).unwrap();
    let rest: Vec<Dataset> = text[1..].iter().map(|t| Dataset::new(t.as_bytes()).unwrap()).collect();
    let merged = first.merge(rest);
    let whole = Dataset::new("a,c\n1,y\n2,n\n1,n\n".as_bytes()).unwrap();
    assert_eq!(merged.get_instances(), 3);
    assert_eq!(merged.get_subheaders(), whole.get_subheaders());
    assert_eq!(merged.get_matrix(), whole.get_matrix());
}

#[test]
fn merge_with_empty_list_keeps_dataset() {
    let d = small();
    let merged = small().merge(Vec::<Dataset>::new());
    assert_eq!(merged.get_matrix(), d.get_matrix());
    assert_eq!(merged.get_headers(), d.get_headers());
}

#[test]
fn intersection_is_symmetric() {
    let d = small();
    let names = d.get_subheader_names().clone();
    for x in &names {
        for y in &names {
            assert_eq!(d.intersection(x, y), d.intersection(y, x));
        }
    }
}

#[test]
fn each_feature_partitions_the_records() {
    let d = small();
    for h in d.get_headers().clone() {
        let subs = d.get_header_values(&h).unwrap().clone();
        let total: isize = subs.iter().map(|s| d.intersection(s, s).unwrap()).sum();
        assert_eq!(total as usize, d.get_instances());
    }
}

#[test]
fn from_parts_checks_shape_and_counts() {
    let headers = strings(&["a"]);
    let subs = vec![strings(&["a_1", "a_2"])];
    let good = Dataset::from_parts(headers.clone(), subs.clone(), 3, vec![vec![2, 0], vec![0, 1]]);
    assert!(good.is_some());
    assert_eq!(good.unwrap().intersection("a_1", "a_1"), Some(2));
    assert!(Dataset::from_parts(headers.clone(), subs.clone(), 3, vec![vec![2, 0]]).is_none());
    assert!(Dataset::from_parts(headers.clone(), subs.clone(), 1, vec![vec![2, 0], vec![0, 1]]).is_none());
    assert!(Dataset::from_parts(headers.clone(), subs.clone(), 3, vec![vec![-1, 0], vec![0, 1]]).is_none());
    assert!(Dataset::from_parts(headers, vec![], 3, vec![]).is_none());
}

#[test]
fn duplicate_names_use_the_last_occurrence() {
    // header "a_b" with value "c" and header "a" with value "b_c" share the name "a_b_c"
    let d = Dataset::new("a_b,a\nc,b_c\nc,z\n".as_bytes()).unwrap();
    assert_eq!(d.get_subheader_names(), &strings(&["a_b_c", "a_b_c", "a_z"]));
    // the last one is the "a" column's: one record
    assert_eq!(d.intersection("a_b_c", "a_b_c"), Some(1));
}

#[test]
fn header_index_is_last_occurrence() {
    let d = Dataset::new("a,b,a\n1,2,3\n".as_bytes()).unwrap();
    assert_eq!(d.header_index("a"), Some(2));
    assert_eq!(d.header_index("b"), Some(1));
    assert_eq!(d.header_index("c"), None);
    assert_eq!(d.get_header_values("a"), Some(&strings(&["a_3"])));
}

#[test]
fn sub_feature_positions_follow_the_names() {
    let d = small();
    assert_eq!(d.sub_feature_positions(), vec![vec![0, 1], vec![2, 3], vec![4, 5]]);
    let dup = Dataset::new("a_b,a\nc,b_c\nc,z\n".as_bytes()).unwrap();
    assert_eq!(dup.sub_feature_positions(), vec![vec![1], vec![1, 2]]);
}

#[test]
fn counts_at_reads_diagonals_and_cross_entries() {
    let d = small();
    let counts = d.counts_at(&vec![0, 1], &vec![4, 5]);
    assert_eq!(counts, d.mutual_info_counts("a", "class").unwrap());
    assert_eq!(d.counts_at(&vec![], &vec![0]), Vec::<Vec<(isize, isize, isize)>>::new());
}

#[test]
fn clone_holds_the_same() {
    let d = small();
    let e = d.clone();
    assert_eq!(e.get_headers(), d.get_headers());
    assert_eq!(e.get_subheaders(), d.get_subheaders());
    assert_eq!(e.get_subheader_names(), d.get_subheader_names());
    assert_eq!(e.get_matrix(), d.get_matrix());
    assert_eq!(e.get_instances(), d.get_instances());
}

#[test]
fn repeated_header_has_one_entry() {
    let d = Dataset::new("a,a\n1,2\n".as_bytes()).unwrap();
    assert_eq!(d.get_subheaders(), vec![("a".to_string(), strings(&["a_2"]))]);
    assert_eq!(d.get_header_values("a"), Some(&strings(&["a_2"])));
    assert_eq!(d.get_subheader_names(), &strings(&["a_1", "a_2"]));
}

#[test]
fn repeated_header_keeps_last_position_in_order() {
    let d = Dataset::new("b,a,b\n1,2,3\n".as_bytes()).unwrap();
    assert_eq!(
        d.get_subheaders(),
        vec![("a".to_string(), strings(&["a_2"])), ("b".to_string(), strings(&["b_3"]))]
    );
}

fn assert_symmetric(d: &Dataset) {
    let m = d.get_matrix();
    for c in 0..m.len() {
        for r in 0..m.len() {
            assert_eq!(m[c][r], m[r][c], "column {} row {}", c, r);
        }
    }
}

fn assert_below_diagonal(d: &Dataset) {
    let m = d.get_matrix();
    for c in 0..m.len() {
        for r in 0..m.len() {
            assert!(0 <= m[c][r] && m[c][r] <= m[c][c] && m[c][r] <= m[r][r]);
            assert!(m[c][c] <= d.get_instances() as isize);
        }
    }
}

#[test]
fn counted_matrix_is_symmetric_and_below_its_diagonal() {
    let d = small();
    assert_symmetric(&d);
    assert_below_diagonal(&d);
}

#[test]
fn merged_matrix_stays_symmetric_and_below_its_diagonal() {
    let p1 = Dataset::new("z,a\n1,u\n2,u\n".as_bytes()).unwrap();
    let p2 = Dataset::new("a,m\nv,2\nu,2\n".as_bytes()).unwrap();
    let merged = p1.merge(p2);
    assert_symmetric(&merged);
    assert_below_diagonal(&merged);
    assert_eq!(merged.intersection("a_u", "m_2"), merged.intersection("m_2", "a_u"));
    assert_eq!(merged.intersection("a_u", "m_2"), Some(1));
}

#[test]
fn sub_features_of_one_feature_exclude_each_other() {
    let d = small();
    assert_eq!(d.intersection("a_1", "a_2"), Some(0));
    assert_eq!(d.intersection("class_no", "class_yes"), Some(0));
    for s in d.get_subheader_names() {
        assert!(d.intersection(s, s).unwrap() >= 1);
    }
}

#[test]
fn row_sums_within_a_feature_equal_the_diagonal() {
    let d = small();
    for s in d.get_subheader_names() {
        for h in d.get_headers() {
            let sum: isize = d
                .get_header_values(h)
                .unwrap()
                .iter()
                .map(|t| d.intersection(s, t).unwrap())
                .sum();
            assert_eq!(sum, d.intersection(s, s).unwrap(), "{} {}", s, h);
        }
    }
}

#[test]
fn record_order_does_not_matter() {
    let d = small();
    let e = Dataset::new("a,b,class\n1,y,yes\n1,x,yes\n2,x,no\n".as_bytes()).unwrap();
    assert_eq!(e.get_headers(), d.get_headers());
    assert_eq!(e.get_subheaders(), d.get_subheaders());
    assert_eq!(e.get_instances(), d.get_instances());
    assert_eq!(e.get_matrix(), d.get_matrix());
}

#[test]
fn merge_with_headers_only_changes_no_count() {
    let d = Dataset::new("class,a\nyes,1\nno,2\nyes,1\n".as_bytes()).unwrap();
    let before = Dataset::new("class,a\nyes,1\nno,2\nyes,1\n".as_bytes()).unwrap();
    let e = Dataset::new("a\n".as_bytes()).unwrap();
    let merged = d.merge(e);
    assert_eq!(merged.get_headers(), &strings(&["a", "class"]));
    assert_eq!(merged.get_instances(), before.get_instances());
    for h in before.get_headers() {
        assert_eq!(merged.get_header_values(h), before.get_header_values(h));
    }
    let names = before.get_subheader_names().clone();
    for x in &names {
        for y in &names {
            assert_eq!(merged.intersection(x, y), before.intersection(x, y), "{} {}", x, y);
        }
    }
}

#[test]
fn merge_is_associative() {
    let texts = ["z,a\n1,u\n2,u\n", "a,m\nv,2\n", "m,z\n3,1\n2,2\n"];
    let make = |i: usize| Dataset::new(texts[i].as_bytes()).unwrap();
    let left = make(0).merge(make(1)).merge(make(2));
    let right = make(0).merge(make(1).merge(make(2)));
    assert_eq!(left.get_headers(), right.get_headers());
    assert_eq!(left.get_subheaders(), right.get_subheaders());
    assert_eq!(left.get_instances(), right.get_instances());
    assert_eq!(left.get_matrix(), right.get_matrix());
    assert_eq!(left.get_instances(), 5);
}
