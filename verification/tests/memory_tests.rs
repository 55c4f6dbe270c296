use zero_code::memory::{
    expired_sessions, extract_keywords, parse_topic_blocks, relevance_points, search_memory,
    session_file_time_exec, topic_offsets_ok, truncate_memory, TopicBlock,
};
use zero_code::session::session_filename_at;

fn score(block: &TopicBlock, kw: &Vec<String>) -> f64 {
    if kw.is_empty() {
        return 0.0;
    }
    relevance_points(block, kw) as f64 / (kw.len() as f64 * 2.0)
}

#[test]
fn test_extract_keywords_filters_short_words() {
    let kw = extract_keywords("a an file read path");
    assert!(kw.contains(&"file".to_string()));
    assert!(kw.contains(&"read".to_string()));
    assert!(kw.contains(&"path".to_string()));
    assert!(!kw.contains(&"a".to_string()));
    assert!(!kw.contains(&"an".to_string()));
}

#[test]
fn test_extract_keywords_deduplicates() {
    let kw = extract_keywords("file file FILE Read read");
    let file_count = kw.iter().filter(|w| *w == "file").count();
    let read_count = kw.iter().filter(|w| *w == "read").count();
    assert_eq!(file_count, 1);
    assert_eq!(read_count, 1);
}

const BASIC_MD: &str = "\
# Header stuff
---

## Topic: Auth System
**Last Updated**: 2026-01-01
**Source Sessions**: 3

We decided to use JWT tokens for authentication.

### Cross-References
- [Topic: API Design](#topic-api-design) -- related

---

## Topic: API Design
**Last Updated**: 2026-02-01
**Source Sessions**: 2

RESTful API with versioning.

### Cross-References
- [Topic: Auth System](#topic-auth-system) -- related
";

#[test]
fn test_parse_topic_blocks_basic() {
    let blocks = parse_topic_blocks(BASIC_MD);
    assert_eq!(blocks.len(), 2);
    assert_eq!(blocks[0].title, "Auth System");
    assert_eq!(blocks[1].title, "API Design");
    assert!(blocks[0].content.contains("JWT tokens"));
    assert!(blocks[1].content.contains("RESTful API"));
}

#[test]
fn test_parse_topic_blocks_empty() {
    let blocks = parse_topic_blocks("Just some text\nNo topic headers\n");
    assert!(blocks.is_empty());
}

#[test]
fn test_score_relevance_title_match() {
    let block = TopicBlock {
        title: "Authentication System Design".to_string(),
        content: "Some content about other things".to_string(),
        start_byte: 0,
        end_byte: 100,
    };
    let kw = vec!["authentication".to_string()];
    assert!(score(&block, &kw) > 0.5);
}

#[test]
fn test_score_relevance_no_match() {
    let block = TopicBlock {
        title: "Database Schema".to_string(),
        content: "We use PostgreSQL with migrations".to_string(),
        start_byte: 0,
        end_byte: 100,
    };
    let kw = vec!["frontend".to_string(), "react".to_string()];
    assert_eq!(score(&block, &kw), 0.0);
}

#[test]
fn test_score_relevance_content_match() {
    let block = TopicBlock {
        title: "Database Schema".to_string(),
        content: "We decided to use PostgreSQL for authentication storage".to_string(),
        start_byte: 0,
        end_byte: 100,
    };
    let kw = vec!["postgresql".to_string()];
    assert_eq!(score(&block, &kw), 0.5);
}

#[test]
fn test_search_memory_no_file() {
    // A project without a memory document has nothing to search.
    let result = search_memory(None, "test query");
    assert!(result.is_none());
}

#[test]
fn topic_blocks_record_offsets() {
    assert!(topic_offsets_ok(BASIC_MD));
    let blocks = parse_topic_blocks(BASIC_MD);
    let first = BASIC_MD.find("## Topic: Auth").unwrap();
    let second = BASIC_MD.find("## Topic: API Design").unwrap();
    assert_eq!(blocks[0].start_byte, first);
    assert_eq!(blocks[0].end_byte, second);
    assert_eq!(blocks[1].start_byte, second);
    assert_eq!(blocks[1].end_byte, BASIC_MD.len());
}

#[test]
fn search_finds_relevant_topic_first() {
    let r = search_memory(Some(BASIC_MD), "How does RESTful versioning work?").unwrap();
    assert!(r.starts_with("[Relevant memory from past sessions:]\n\n## Topic: API Design\n"));
    assert!(r.contains("RESTful API with versioning."));
    assert!(!r.contains("## Topic: Auth System"));
}

#[test]
fn search_without_keywords_finds_nothing() {
    assert!(search_memory(Some(BASIC_MD), "a an of").is_none());
}

#[test]
fn search_with_unrelated_query_finds_nothing() {
    assert!(search_memory(Some(BASIC_MD), "kubernetes deployment").is_none());
}

#[test]
fn keywords_are_lowercase_and_alphanumeric() {
    let kw = extract_keywords("Hello, World! it's");
    assert_eq!(kw, vec!["hello".to_string(), "world".to_string(), "its".to_string()]);
}

fn three_topics() -> String {
    let mut content = String::new();
    content.push_str("# Header\n---\n\n");
    content.push_str("## Topic: First\n**Last Updated**: 2020-01-01\n**Source Sessions**: 1\n\nOldest content here.\n\n### Cross-References\n\n---\n\n");
    content.push_str("## Topic: Second\n**Last Updated**: 2021-01-01\n**Source Sessions**: 2\n\nMiddle content here.\n\n### Cross-References\n\n---\n\n");
    content.push_str("## Topic: Third\n**Last Updated**: 2022-01-01\n**Source Sessions**: 3\n\nNewest content here.\n\n### Cross-References\n\n");
    content
}

#[test]
fn test_enforce_size_limit_below_threshold() {
    let content = "## Topic: Small\nSome content\n";
    assert!(truncate_memory(content, 10 * 1024 * 1024).is_none());
}

#[test]
fn test_enforce_size_limit_truncates() {
    let content = three_topics();
    let total_size = content.len() as u64;
    let max_bytes = total_size * 3 / 4 + 50;
    let after = truncate_memory(&content, max_bytes).unwrap();
    assert!(after.contains("WARNING"));
    assert!(after.len() as u64 <= max_bytes, "{} <= {}", after.len(), max_bytes);
    assert!(!after.contains("## Topic: First"));
    assert!(after.contains("## Topic:"));
    assert!(after.starts_with("# Header\n---\n\n<!-- WARNING: Truncated to stay under 0MB. 2 oldest topic(s) removed. -->\n\n## Topic: Third"));
}

#[test]
fn size_limit_without_topics_leaves_document() {
    let content = "x".repeat(500);
    assert!(truncate_memory(&content, 100).is_none());
}

#[test]
fn session_time_is_read_back_from_file_name() {
    let name = session_filename_at("fix_the_bug", 1_700_000_000);
    assert_eq!(name, "fix_the_bug_1700000000.json");
    assert_eq!(session_file_time_exec(&name), Some(1_700_000_000));
    assert_eq!(session_file_time_exec("notes.txt"), None);
    assert_eq!(session_file_time_exec("session_abc.json"), None);
    assert_eq!(session_file_time_exec("session_+12.json"), Some(12));
}

#[test]
fn expired_sessions_are_those_saved_before_the_cutoff() {
    let names = vec![
        "old_1000.json".to_string(),
        "new_900000.json".to_string(),
        "readme.md".to_string(),
        "broken_x.json".to_string(),
    ];
    let (any, files) = expired_sessions(&names, 1_000_000, 7);
    assert!(any);
    assert_eq!(files, vec!["old_1000.json".to_string()]);
    let (any, files) = expired_sessions(&names, 1_000_000, 30);
    assert!(!any);
    assert!(files.is_empty());
}

#[test]
fn test_check_expired_sessions_no_dir() {
    // A project without a sessions directory lists no files.
    let (any, files) = expired_sessions(&[], 1_000_000, 7);
    assert!(!any);
    assert!(files.is_empty());
}

#[test]
fn search_keeps_only_topics_scoring_a_tenth() {
    // One content match out of eleven keywords scores 1/22, under a tenth.
    let q = "restful alpha bravo charlie delta echo foxtrot golf hotel india juliet";
    assert!(search_memory(Some(BASIC_MD), q).is_none());
    // With five keywords the same match scores 1/10 and is shown.
    let q = "restful alpha bravo charlie delta";
    let r = search_memory(Some(BASIC_MD), q).unwrap();
    assert!(r.contains("## Topic: API Design"));
}
