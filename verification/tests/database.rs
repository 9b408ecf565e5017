use rag_search::database::{
    assemble_documents, chunk, fuse_ranks, hash_key, join_rowids, match_query, plan_insert,
    rowid_select_query, slots_to_rowids, top_candidates, InsertPlan,
};
use rag_search::hash::hash;

fn numbered_words(n: usize) -> Vec<String> {
    (0..n).map(|i| format!("w{i}")).collect()
}

#[test]
fn chunk_splits_every_two_hundred_words() {
    let words = numbered_words(450);
    let text = words.join("  ");
    let chunks = chunk(&text);
    assert_eq!(chunks.len(), 3);
    assert_eq!(chunks[0], words[0..200].join(" "));
    assert_eq!(chunks[1], words[200..400].join(" "));
    assert_eq!(chunks[2], words[400..450].join(" "));
}

#[test]
fn chunk_of_exact_multiple_has_no_tail() {
    let words = numbered_words(400);
    let chunks = chunk(&words.join("\n"));
    assert_eq!(chunks.len(), 2);
    assert_eq!(chunks[1], words[200..400].join(" "));
}

#[test]
fn chunk_of_short_and_empty_texts() {
    assert_eq!(chunk("just a few\twords"), vec!["just a few words".to_string()]);
    assert!(chunk("").is_empty());
    assert!(chunk(" \n ").is_empty());
}

#[test]
fn chunks_rejoin_to_the_words() {
    let words = numbered_words(523);
    let chunks = chunk(&words.join(" "));
    assert_eq!(chunks.join(" "), words.join(" "));
}

#[test]
fn match_query_quotes_and_ors_terms() {
    assert_eq!(match_query("run dog"), "\"run\" OR \"dog\"");
    assert_eq!(match_query("say\"hi\""), "\"say\"\"hi\"\"\"");
    assert_eq!(match_query("  solo "), "\"solo\"");
}

#[test]
fn match_query_is_empty_without_words() {
    assert_eq!(match_query(""), "");
    assert_eq!(match_query(" \t "), "");
}

#[test]
fn join_rowids_writes_decimals() {
    assert_eq!(join_rowids(&vec![3, 14, -2], ","), "3,14,-2");
    assert_eq!(join_rowids(&vec![], ","), "");
    assert_eq!(join_rowids(&vec![7], ", "), "7");
}

#[test]
fn rowid_select_query_lists_the_ids() {
    assert_eq!(
        rowid_select_query(&vec![5, 1]),
        "\n    SELECT rowid, text\n    FROM documents\n    WHERE rowid IN (5,1);\n"
    );
}

#[test]
fn hash_key_reinterprets_the_hash() {
    assert_eq!(hash_key("hello"), -6129763823680691526);
    assert_eq!(hash_key("let out smoke test"), 5344284907930586014);
    assert_eq!(hash_key("x"), hash("x") as i64);
}

#[test]
fn plan_insert_skips_duplicates() {
    assert!(matches!(plan_insert("text", true, 9), InsertPlan::Duplicate));
}

#[test]
fn plan_insert_takes_the_next_row() {
    match plan_insert("hello", false, 0) {
        InsertPlan::Store { rowid, text_hash } => {
            assert_eq!(rowid, 1);
            assert_eq!(text_hash, -6129763823680691526);
        }
        InsertPlan::Duplicate => panic!("not a duplicate"),
    }
    match plan_insert("hello", false, 41) {
        InsertPlan::Store { rowid, .. } => assert_eq!(rowid, 42),
        InsertPlan::Duplicate => panic!("not a duplicate"),
    }
}

#[test]
fn slots_map_to_following_rows() {
    assert_eq!(slots_to_rowids(&vec![0, 4, 2]), vec![1, 5, 3]);
    assert!(slots_to_rowids(&vec![]).is_empty());
}

#[test]
fn fuse_ranks_groups_by_first_occurrence() {
    let fused = fuse_ranks(&vec![vec![7, 3, 9], vec![3, 8, 7]]);
    assert_eq!(fused, vec![(7, vec![0, 2]), (3, vec![1, 0]), (9, vec![2]), (8, vec![1])]);
}

#[test]
fn fuse_ranks_of_nothing_is_empty() {
    assert!(fuse_ranks(&vec![]).is_empty());
    assert!(fuse_ranks(&vec![vec![], vec![]]).is_empty());
}

#[test]
fn fuse_ranks_counts_repeats_within_a_list() {
    let fused = fuse_ranks(&vec![vec![5, 5]]);
    assert_eq!(fused, vec![(5, vec![0, 1])]);
}

#[test]
fn top_candidates_respects_the_limit() {
    let fused = vec![4, 2, 9];
    assert_eq!(top_candidates(&fused, 2), vec![4, 2]);
    assert_eq!(top_candidates(&fused, 10), vec![4, 2, 9]);
    assert!(top_candidates(&fused, 0).is_empty());
    assert!(top_candidates(&fused, -3).is_empty());
}

#[test]
fn assemble_documents_follows_rank_order() {
    let rows = vec![(1, "one".to_string()), (3, "three".to_string()), (2, "two".to_string())];
    assert_eq!(assemble_documents(&vec![3, 1, 2], rows), "three\none\ntwo");
}

#[test]
fn assemble_documents_skips_missing_and_repeated_ids() {
    let rows = vec![(1, "one".to_string()), (1, "uno".to_string())];
    assert_eq!(assemble_documents(&vec![4, 1, 1], rows), "uno");
    assert_eq!(assemble_documents(&vec![], vec![]), "");
}
