use proper_noun_rank::analyzer::Token;
use proper_noun_rank::dataset::{select_texts, Record};
use proper_noun_rank::error::PipelineError;
use proper_noun_rank::extract::{extract_chunk, filter_tokens, make_tokenizer, run_chunk, PROPER_NOUN_MARKER};
use proper_noun_rank::frequency::count_tokens;
use proper_noun_rank::merge::{collect_outputs, merge_outputs};
use proper_noun_rank::partition::{chunk_size, effective_worker_count, partition};
use proper_noun_rank::rank::{rank, rank_tokens, top_k};
use proper_noun_rank::text::{chars_of, contains_chars, lex_less};
use vibrato::{Dictionary, SystemDictionaryBuilder};

const LEX_CSV: &str = "東京タワー,0,0,100,名詞,固有名詞,一般,*\n\
に,0,0,100,助詞,格助詞,*,*\n\
は,0,0,100,助詞,係助詞,*,*\n\
行っ,0,0,100,動詞,自立,*,*\n\
た,0,0,100,助動詞,*,*,*\n\
高い,0,0,100,形容詞,自立,*,*\n";
const MATRIX_DEF: &str = "1 1\n0 0 0\n";
const CHAR_DEF: &str = "DEFAULT 0 1 0\nSPACE 0 1 0\n0x0020 SPACE\n";
const CHAR_DEF_NO_SPACE: &str = "DEFAULT 0 1 0\n";
const UNK_DEF: &str = "DEFAULT,0,0,10000,名詞,一般,*,*\nSPACE,0,0,10000,記号,空白,*,*\n";
const UNK_DEF_NO_SPACE: &str = "DEFAULT,0,0,10000,名詞,一般,*,*\n";

fn small_dictionary(char_def: &str, unk_def: &str) -> Dictionary {
    SystemDictionaryBuilder::from_readers(
        LEX_CSV.as_bytes(),
        MATRIX_DEF.as_bytes(),
        char_def.as_bytes(),
        unk_def.as_bytes(),
    )
    .unwrap()
}

fn strings(v: &[&str]) -> Vec<String> {
    v.iter().map(|s| s.to_string()).collect()
}

fn token(surface: &str, feature: &str) -> Token {
    Token { surface: surface.to_string(), feature: feature.to_string() }
}

fn entry(s: &str, n: u64) -> (String, u64) {
    (s.to_string(), n)
}

#[test]
fn two_documents_two_workers_rank_tokyo_tower_twice() {
    let docs = strings(&["東京タワーに行った", "東京タワーは高い"]);
    let tokenizer = make_tokenizer(small_dictionary(CHAR_DEF, UNK_DEF)).unwrap();
    let chunks = partition(&docs, 2).unwrap();
    assert_eq!(chunks, vec![strings(&["東京タワーに行った"]), strings(&["東京タワーは高い"])]);
    let outputs: Vec<Vec<String>> =
        chunks.iter().map(|c| run_chunk(&tokenizer, c, PROPER_NOUN_MARKER)).collect();
    assert_eq!(outputs, vec![strings(&["東京タワー"]), strings(&["東京タワー"])]);
    let merged = merge_outputs(&outputs);
    assert_eq!(merged, strings(&["東京タワー", "東京タワー"]));
    assert_eq!(rank_tokens(&merged), vec![entry("東京タワー", 2)]);
}

#[test]
fn run_chunk_keeps_document_and_token_order() {
    let tokenizer = make_tokenizer(small_dictionary(CHAR_DEF, UNK_DEF)).unwrap();
    let chunk = strings(&["東京タワーは高い", "高い", "東京タワーに行った東京タワー"]);
    let out = run_chunk(&tokenizer, &chunk, PROPER_NOUN_MARKER);
    assert_eq!(out, strings(&["東京タワー", "東京タワー", "東京タワー"]));
    let independent = run_chunk(&tokenizer, &chunk, ",自立");
    assert_eq!(independent, strings(&["高い", "高い", "行っ"]));
}

#[test]
fn dictionary_without_space_category_is_a_resource_error() {
    let r = make_tokenizer(small_dictionary(CHAR_DEF_NO_SPACE, UNK_DEF_NO_SPACE));
    assert!(matches!(r, Err(PipelineError::Resource)));
}

#[test]
fn empty_document_list_is_refused() {
    let docs: Vec<String> = vec![];
    assert_eq!(partition(&docs, 4), Err(PipelineError::EmptyInput));
}

#[test]
fn eight_workers_three_documents_one_each() {
    let docs = strings(&["a", "b", "c"]);
    assert_eq!(effective_worker_count(8, 3), 3);
    assert_eq!(chunk_size(8, 3), 1);
    let chunks = partition(&docs, 8).unwrap();
    assert_eq!(chunks, vec![strings(&["a"]), strings(&["b"]), strings(&["c"])]);
}

#[test]
fn partition_uses_ceiling_chunks_in_order() {
    let docs = strings(&["0", "1", "2", "3", "4", "5", "6", "7", "8", "9"]);
    assert_eq!(chunk_size(4, 10), 3);
    let chunks = partition(&docs, 4).unwrap();
    assert_eq!(
        chunks,
        vec![
            strings(&["0", "1", "2"]),
            strings(&["3", "4", "5"]),
            strings(&["6", "7", "8"]),
            strings(&["9"]),
        ]
    );
    let joined: Vec<String> = chunks.concat();
    assert_eq!(joined, docs);
}

#[test]
fn partition_gives_one_chunk_per_worker_when_ceiling_runs_would_not() {
    let docs = strings(&["0", "1", "2", "3", "4"]);
    assert_eq!(chunk_size(4, 5), 2);
    let chunks = partition(&docs, 4).unwrap();
    assert_eq!(
        chunks,
        vec![strings(&["0", "1"]), strings(&["2"]), strings(&["3"]), strings(&["4"])]
    );
    assert_eq!(chunks.concat(), docs);
}

#[test]
fn partition_seven_documents_four_workers() {
    let docs = strings(&["0", "1", "2", "3", "4", "5", "6"]);
    let chunks = partition(&docs, 4).unwrap();
    assert_eq!(
        chunks,
        vec![strings(&["0", "1"]), strings(&["2", "3"]), strings(&["4", "5"]), strings(&["6"])]
    );
}

#[test]
fn single_worker_takes_everything() {
    let docs = strings(&["x", "y"]);
    assert_eq!(partition(&docs, 1).unwrap(), vec![docs.clone()]);
}

#[test]
fn filter_keeps_marked_surfaces_with_duplicates() {
    let tokens = vec![
        token("東京", "名詞,固有名詞,地名,一般"),
        token("に", "助詞,格助詞"),
        token("東京", "名詞,固有名詞,地名,一般"),
        token("固有名詞", "名詞,一般"),
    ];
    assert_eq!(filter_tokens(&tokens, PROPER_NOUN_MARKER), strings(&["東京", "東京"]));
    assert_eq!(filter_tokens(&tokens, ",格助詞"), strings(&["に"]));
    assert_eq!(filter_tokens(&vec![], PROPER_NOUN_MARKER), Vec::<String>::new());
}

#[test]
fn extract_chunk_concatenates_documents() {
    let docs = vec![
        vec![token("京都", "名詞,固有名詞"), token("行く", "動詞")],
        vec![],
        vec![token("大阪", "名詞,固有名詞"), token("京都", "名詞,固有名詞")],
    ];
    assert_eq!(extract_chunk(&docs, PROPER_NOUN_MARKER), strings(&["京都", "大阪", "京都"]));
}

#[test]
fn merge_concatenates_in_given_order() {
    let outputs = vec![strings(&["a", "b"]), vec![], strings(&["c"])];
    assert_eq!(merge_outputs(&outputs), strings(&["a", "b", "c"]));
    assert_eq!(merge_outputs(&vec![]), Vec::<String>::new());
}

#[test]
fn arrival_order_does_not_change_the_ranking() {
    let first = vec![strings(&["b", "a", "b"]), strings(&["c", "a"])];
    let second = vec![strings(&["c", "a"]), strings(&["b", "a", "b"])];
    let m1 = merge_outputs(&first);
    let m2 = merge_outputs(&second);
    assert_ne!(m1, m2);
    let mut s1 = m1.clone();
    let mut s2 = m2.clone();
    s1.sort();
    s2.sort();
    assert_eq!(s1, s2);
    assert_eq!(rank_tokens(&m1), rank_tokens(&m2));
}

#[test]
fn counts_match_occurrences_and_sum_to_length() {
    let tokens = strings(&["x", "y", "x", "z", "x", "y"]);
    let mut table = count_tokens(&tokens);
    table.sort();
    assert_eq!(table, vec![entry("x", 3), entry("y", 2), entry("z", 1)]);
    let sum: u64 = table.iter().map(|e| e.1).sum();
    assert_eq!(sum, tokens.len() as u64);
    assert_eq!(count_tokens(&vec![]), Vec::<(String, u64)>::new());
}

#[test]
fn ranking_is_by_count_then_text() {
    let table = vec![entry("d", 1), entry("b", 2), entry("a", 2), entry("c", 5)];
    assert_eq!(rank(&table), vec![entry("c", 5), entry("a", 2), entry("b", 2), entry("d", 1)]);
    let tokens = strings(&["大阪", "東京", "京都", "東京", "大阪", "東京"]);
    let ranked = rank_tokens(&tokens);
    assert_eq!(ranked, vec![entry("東京", 3), entry("大阪", 2), entry("京都", 1)]);
    for w in ranked.windows(2) {
        assert!(w[0].1 >= w[1].1);
    }
}

#[test]
fn top_k_takes_a_prefix_or_everything() {
    let ranked = vec![entry("c", 5), entry("a", 2), entry("b", 2), entry("d", 1)];
    assert_eq!(top_k(&ranked, 2), vec![entry("c", 5), entry("a", 2)]);
    assert_eq!(top_k(&ranked, 10), ranked);
    assert_eq!(top_k(&ranked, 0), Vec::<(String, u64)>::new());
}

#[test]
fn records_are_selected_by_date_suffix() {
    let records = vec![
        Record { created_at: "Sat Jan 07 12:00:00 +0000 2023".to_string(), full_text: "one".to_string() },
        Record { created_at: "Sat Jan 07 12:00:00 +0000 2022".to_string(), full_text: "two".to_string() },
        Record { created_at: "Mon Feb 06 08:00:00 +0000 2023".to_string(), full_text: "three".to_string() },
        Record { created_at: "23".to_string(), full_text: "four".to_string() },
    ];
    assert_eq!(select_texts(&records, "2023"), strings(&["one", "three"]));
}

#[test]
fn character_helpers() {
    assert_eq!(chars_of("東京"), vec!['東', '京']);
    assert!(contains_chars(&chars_of("名詞,固有名詞,地名"), &chars_of(",固有名詞")));
    assert!(!contains_chars(&chars_of("名詞,一般"), &chars_of(",固有名詞")));
    assert!(contains_chars(&chars_of("abc"), &chars_of("")));
    assert!(lex_less(&chars_of("ab"), &chars_of("b")));
    assert!(lex_less(&chars_of("a"), &chars_of("ab")));
    assert!(!lex_less(&chars_of("ab"), &chars_of("ab")));
}

#[test]
fn rerun_with_reversed_arrival_gives_same_ranking() {
    let docs = strings(&["東京タワーに行った", "高い", "東京タワーは高い", "東京タワー"]);
    let tokenizer = make_tokenizer(small_dictionary(CHAR_DEF, UNK_DEF)).unwrap();
    let chunks = partition(&docs, 3).unwrap();
    let mut outputs: Vec<Vec<String>> =
        chunks.iter().map(|c| run_chunk(&tokenizer, c, PROPER_NOUN_MARKER)).collect();
    let first = rank_tokens(&merge_outputs(&outputs));
    outputs.reverse();
    let second = rank_tokens(&merge_outputs(&outputs));
    assert_eq!(first, vec![entry("東京タワー", 3)]);
    assert_eq!(first, second);
}

#[test]
fn any_failed_worker_fails_the_run() {
    let results = vec![Some(strings(&["a"])), None, Some(strings(&["b"]))];
    assert_eq!(collect_outputs(&results), Err(PipelineError::WorkerFailed));
}

#[test]
fn finished_workers_are_merged_in_order() {
    let results = vec![Some(strings(&["a", "b"])), Some(vec![]), Some(strings(&["c"]))];
    assert_eq!(collect_outputs(&results), Ok(strings(&["a", "b", "c"])));
    assert_eq!(collect_outputs(&vec![]), Ok(Vec::<String>::new()));
}
