use comment_chunks::chunk::CheckableChunk;
use comment_chunks::classify::{
    retain_only_developer_comments, token_with_line_column_to_token_with_type, TokenType,
    TokenWithType,
};
use comment_chunks::config::{os_specific_search_dirs, HostOs, SearchDirs};
use comment_chunks::developer::{extract_developer_comments, literal_set_from_block_comment};
use comment_chunks::literal::{CommentError, CommentVariant, TrimmedLiteral};
use comment_chunks::litset::LiteralSet;
use comment_chunks::mapping::ByteRange;
use comment_chunks::span::{Position, Span};
use comment_chunks::tokens::{
    source_to_tokens_with_location, tokens_with_location_to_tokens_with_line_and_column,
    TokenWithLineColumn,
};

use indexmap::IndexMap;

#[test]
fn extraction_orders_line_comment_sets_before_block_comment_sets() {
    let sets = extract_developer_comments("/* test */\n// test");
    assert_eq!(sets.len(), 2);
    let line_set = sets.get(0).unwrap();
    assert_eq!(line_set.len(), 1);
    let line_literal = line_set.literals().get(0).unwrap();
    assert_eq!(line_literal.as_str(), " test");
    let span = line_literal.span();
    assert_eq!(span.start.line, 2);
    assert_eq!(span.start.column, 2);
    let block_set = sets.get(1).unwrap();
    assert_eq!(block_set.len(), 1);
    let block_literal = block_set.literals().get(0).unwrap();
    assert_eq!(block_literal.as_str(), " test ");
    let span = block_literal.span();
    assert_eq!(span.start.line, 1);
    assert_eq!(span.start.column, 2);
}

#[test]
fn multibyte_scalars_never_break_column_math() {
    let source = "/* te中st */\n// test";
    let tokens = source_to_tokens_with_location(source);
    assert_eq!(tokens.get(0).unwrap().location, 0);
    assert_eq!(tokens.get(1).unwrap().location, 13);
    assert_eq!(tokens.get(2).unwrap().location, 14);
    let tokens = tokens_with_location_to_tokens_with_line_and_column(source, tokens);
    assert_eq!(tokens.get(1).unwrap().column, 11);
}

#[test]
fn adjacency_splits_line_comment_sets() {
    let sets = extract_developer_comments("// a\n// b\nfn x(){}\n// c");
    assert_eq!(sets.len(), 2);
    let first = sets.get(0).unwrap();
    assert_eq!(first.len(), 2);
    assert_eq!(first.literals().get(0).unwrap().as_str(), " a");
    assert_eq!(first.literals().get(1).unwrap().as_str(), " b");
    let second = sets.get(1).unwrap();
    assert_eq!(second.len(), 1);
    assert_eq!(second.literals().get(0).unwrap().as_str(), " c");
}

#[test]
fn multi_line_block_comment_set_has_expected_literals() {
    let sets = extract_developer_comments("/* block\n 种 \ncomment */");
    assert_eq!(sets.len(), 1);
    let set = sets.get(0).unwrap();
    assert_eq!(set.len(), 3);
    let literals = set.literals();
    assert_eq!(literals.get(0).unwrap().pre(), 2);
    assert_eq!(literals.get(0).unwrap().post(), 0);
    assert_eq!(literals.get(0).unwrap().as_str(), " block");
    assert_eq!(literals.get(1).unwrap().pre(), 0);
    assert_eq!(literals.get(1).unwrap().post(), 0);
    assert_eq!(literals.get(1).unwrap().as_str(), " 种 ");
    assert_eq!(literals.get(2).unwrap().pre(), 0);
    assert_eq!(literals.get(2).unwrap().post(), 2);
    assert_eq!(literals.get(2).unwrap().as_str(), "comment ");
}

#[test]
fn empty_source_yields_no_tokens_and_no_sets() {
    assert_eq!(source_to_tokens_with_location("").len(), 0);
    assert_eq!(extract_developer_comments("").len(), 0);
}

#[test]
fn sole_line_comment_spans_content_scalars() {
    let source = "// abc";
    let sets = extract_developer_comments(source);
    assert_eq!(sets.len(), 1);
    let set = sets.get(0).unwrap();
    assert_eq!(set.len(), 1);
    let literal = set.literals().get(0).unwrap();
    let span = literal.span();
    assert_eq!(span.start.line, 1);
    assert_eq!(span.start.column, 2);
    assert_eq!(span.end.line, 1);
    assert_eq!(span.end.column, source.chars().count() - 1);
}

#[test]
fn sole_single_line_block_comment_has_symmetric_delimiters() {
    let sets = extract_developer_comments("/* x */");
    assert_eq!(sets.len(), 1);
    let set = sets.get(0).unwrap();
    assert_eq!(set.len(), 1);
    let literal = set.literals().get(0).unwrap();
    assert_eq!(literal.pre(), 2);
    assert_eq!(literal.post(), 2);
    assert_eq!(literal.as_str(), " x ");
}

#[test]
fn line_comment_on_last_line_without_newline_is_captured() {
    let sets = extract_developer_comments("fn x(){}\n// tail");
    assert_eq!(sets.len(), 1);
    assert_eq!(sets.get(0).unwrap().literals().get(0).unwrap().as_str(), " tail");
}

#[test]
fn tokens_render_back_to_source_and_tokenize_identically() {
    let source = "/* te中st */\n// test\nfn 中(){\t}";
    let tokens = source_to_tokens_with_location(source);
    let rendered: String = tokens.iter().map(|t| t.content.clone()).collect();
    assert_eq!(rendered, source);
    let again = source_to_tokens_with_location(&rendered);
    assert_eq!(again.len(), tokens.len());
    for (a, b) in tokens.iter().zip(again.iter()) {
        assert_eq!(a.content, b.content);
        assert_eq!(a.location, b.location);
    }
}

#[test]
fn classification_is_stable_across_runs() {
    let source = "/* a */\n// b\nfn c(){}";
    let run = |src: &str| -> Vec<TokenType> {
        let tokens = source_to_tokens_with_location(src);
        let tokens = tokens_with_location_to_tokens_with_line_and_column(src, tokens);
        token_with_line_column_to_token_with_type(tokens).iter().map(|t| t.kind).collect()
    };
    assert_eq!(run(source), run(source));
}

#[test]
fn retention_drops_doc_comments_and_other_tokens() {
    let source = "/// doc\n//! inner\n/** outer block */\n/*! inner block */\n// keep\nfn x(){}";
    let tokens = source_to_tokens_with_location(source);
    let tokens = tokens_with_location_to_tokens_with_line_and_column(source, tokens);
    let tokens = token_with_line_column_to_token_with_type(tokens);
    let kept = retain_only_developer_comments(tokens);
    assert_eq!(kept.len(), 1);
    assert_eq!(kept.get(0).unwrap().content, "// keep");
}

#[test]
fn doc_block_variants_are_not_developer_comments_but_degenerate_ones_are() {
    let cases = vec![
        ("/** x */", TokenType::Other),
        ("/*! x */", TokenType::Other),
        ("/**/", TokenType::BlockComment),
        ("/***/", TokenType::BlockComment),
        ("/* x */", TokenType::BlockComment),
    ];
    for (content, expected) in cases {
        let token = TokenWithLineColumn { content: content.to_string(), line: 1, column: 0 };
        assert_eq!(TokenWithType::from(token).kind, expected);
    }
}

#[test]
fn only_the_final_block_comment_line_carries_a_postfix() {
    // nested-looking content: the middle line ends with */ but keeps post 0
    let token = TokenWithType {
        kind: TokenType::BlockComment,
        content: "/* a\nb */\nc */".to_string(),
        line: 1,
        column: 0,
    };
    let set = literal_set_from_block_comment(&token).unwrap();
    assert_eq!(set.len(), 3);
    let literals = set.literals();
    assert_eq!(literals.get(0).unwrap().post(), 0);
    assert_eq!(literals.get(1).unwrap().post(), 0);
    assert_eq!(literals.get(1).unwrap().as_str(), "b */");
    assert_eq!(literals.get(2).unwrap().post(), 2);
    assert_eq!(literals.get(2).unwrap().as_str(), "c ");
}

#[test]
fn literal_construction_rejects_oversized_delimiters() {
    let r = TrimmedLiteral::from(CommentVariant::Unknown, "abc", 2, 2, 1, 0);
    assert_eq!(r.unwrap_err(), CommentError::DelimitersTooWide);
}

#[test]
fn literal_construction_rejects_wrapping_columns() {
    let r = TrimmedLiteral::from(CommentVariant::Unknown, "*/", 0, 2, 1, 0);
    assert_eq!(r.unwrap_err(), CommentError::PositionArithmeticWrapped);
}

#[test]
fn block_comment_builder_rejects_wrong_kinds_and_bad_delimiters() {
    let line_token = TokenWithType {
        kind: TokenType::LineComment,
        content: "// x".to_string(),
        line: 1,
        column: 0,
    };
    assert_eq!(
        literal_set_from_block_comment(&line_token).unwrap_err(),
        CommentError::WrongTokenKind
    );
    let bad_token = TokenWithType {
        kind: TokenType::BlockComment,
        content: "not a comment".to_string(),
        line: 1,
        column: 0,
    };
    assert_eq!(
        literal_set_from_block_comment(&bad_token).unwrap_err(),
        CommentError::ImproperlyDelimited
    );
}

#[test]
fn add_adjacent_returns_non_adjacent_literal_unchanged() {
    let first = TrimmedLiteral::from(CommentVariant::Unknown, "// a", 2, 0, 1, 0).unwrap();
    let far = TrimmedLiteral::from(CommentVariant::Unknown, "// b", 2, 0, 5, 0).unwrap();
    let mut set = LiteralSet::from(first);
    let rejected = set.add_adjacent(far).unwrap_err();
    assert_eq!(rejected.as_str(), " b");
    assert_eq!(set.len(), 1);
    let near = TrimmedLiteral::from(CommentVariant::Unknown, "// c", 2, 0, 2, 0).unwrap();
    assert!(set.add_adjacent(near).is_ok());
    assert_eq!(set.len(), 2);
}

#[test]
fn chunk_from_literal_set_maps_each_literal_line() {
    let sets = extract_developer_comments("// ab\n// cd");
    assert_eq!(sets.len(), 1);
    let chunk = CheckableChunk::from_literalset(sets.into_iter().next().unwrap());
    assert_eq!(chunk.as_str(), " ab\n cd");
    assert_eq!(chunk.source_mapping.len(), 2);
    let (r0, s0) = chunk.source_mapping.get_index(0).unwrap();
    assert_eq!((r0.start, r0.end), (0, 3));
    assert_eq!(s0.start, Position { line: 1, column: 2 });
    assert_eq!(s0.end, Position { line: 1, column: 4 });
    let (r1, s1) = chunk.source_mapping.get_index(1).unwrap();
    assert_eq!((r1.start, r1.end), (4, 7));
    assert_eq!(s1.start, Position { line: 2, column: 2 });
    assert_eq!(s1.end, Position { line: 2, column: 4 });
}

#[test]
fn find_spans_trims_fragments_at_entry_boundaries() {
    let mut mapping: IndexMap<ByteRange, Span> = IndexMap::new();
    mapping.insert(
        ByteRange { start: 0, end: 5 },
        Span {
            start: Position { line: 1, column: 2 },
            end: Position { line: 1, column: 6 },
        },
    );
    mapping.insert(
        ByteRange { start: 6, end: 11 },
        Span {
            start: Position { line: 2, column: 0 },
            end: Position { line: 2, column: 4 },
        },
    );
    let chunk = CheckableChunk::from_str("abcde\nfghij", mapping);
    let found = chunk.find_spans(ByteRange { start: 2, end: 9 });
    assert_eq!(found.len(), 2);
    let (r0, s0) = found.get_index(0).unwrap();
    assert_eq!((r0.start, r0.end), (2, 5));
    assert_eq!(s0.start, Position { line: 1, column: 4 });
    assert_eq!(s0.end, Position { line: 1, column: 6 });
    let (r1, s1) = found.get_index(1).unwrap();
    assert_eq!((r1.start, r1.end), (6, 9));
    assert_eq!(s1.start, Position { line: 2, column: 0 });
    assert_eq!(s1.end, Position { line: 2, column: 2 });
}

#[test]
fn find_spans_on_the_full_range_returns_every_entry_whole() {
    let sets = extract_developer_comments("// ab\n// cd");
    let chunk = CheckableChunk::from_literalset(sets.into_iter().next().unwrap());
    let full = ByteRange { start: 0, end: chunk.as_str().len() };
    let found = chunk.find_spans(full);
    assert_eq!(found.len(), chunk.source_mapping.len());
    for i in 0..found.len() {
        assert_eq!(found.get_index(i), chunk.source_mapping.get_index(i));
    }
}

#[test]
fn scalar_length_of_each_mapping_range_matches_its_span() {
    let sets = extract_developer_comments("// a中b\n// cd");
    let chunk = CheckableChunk::from_literalset(sets.into_iter().next().unwrap());
    for i in 0..chunk.source_mapping.len() {
        let (range, span) = chunk.source_mapping.get_index(i).unwrap();
        let covered = &chunk.as_str()[range.start..range.end];
        assert_eq!(covered.chars().count(), span.end.column - span.start.column + 1);
        assert_eq!(span.start.line, span.end.line);
    }
}

#[test]
fn erase_markdown_strips_structure_and_maps_back() {
    let mut mapping: IndexMap<ByteRange, Span> = IndexMap::new();
    mapping.insert(
        ByteRange { start: 0, end: 21 },
        Span {
            start: Position { line: 1, column: 0 },
            end: Position { line: 1, column: 20 },
        },
    );
    let chunk = CheckableChunk::from_str("# Head\n- item\n```\nx\n```\ntext", mapping);
    let overlay = chunk.erase_markdown();
    assert_eq!(overlay.plain, "Head\nitem\nx\ntext");
    // the kept tail of each kept line maps back to its bytes in the chunk
    assert_eq!(overlay.chunk_map.len(), 4);
    assert_eq!(overlay.chunk_map[0], (ByteRange { start: 0, end: 4 }, ByteRange {
        start: 2,
        end: 6,
    }));
    assert_eq!(overlay.chunk_map[1], (ByteRange { start: 5, end: 9 }, ByteRange {
        start: 9,
        end: 13,
    }));
}

#[test]
fn erase_markdown_drops_emphasis_and_code_span_markers() {
    let mapping: IndexMap<ByteRange, Span> = IndexMap::new();
    let chunk = CheckableChunk::from_str("*a* `b` _c_", mapping);
    let overlay = chunk.erase_markdown();
    assert_eq!(overlay.plain, "a b c");
    // one entry per kept run, each mapping back to the same text in the chunk
    assert_eq!(overlay.chunk_map.len(), 5);
    assert_eq!(overlay.chunk_map[0], (ByteRange { start: 0, end: 1 }, ByteRange {
        start: 1,
        end: 2,
    }));
    assert_eq!(overlay.chunk_map[1], (ByteRange { start: 1, end: 2 }, ByteRange {
        start: 3,
        end: 4,
    }));
    for i in 0..overlay.chunk_map.len() {
        let (plain_range, chunk_range) = overlay.chunk_map[i];
        assert_eq!(
            &overlay.plain[plain_range.start..plain_range.end],
            &chunk.as_str()[chunk_range.start..chunk_range.end]
        );
    }
}

#[test]
fn erase_markdown_collapses_blank_line_runs() {
    let mapping: IndexMap<ByteRange, Span> = IndexMap::new();
    let chunk = CheckableChunk::from_str("a\n\n\n\nb", mapping);
    let overlay = chunk.erase_markdown();
    assert_eq!(overlay.plain, "a\n\nb");
}

#[test]
fn erase_markdown_is_identity_on_plain_content() {
    let mapping: IndexMap<ByteRange, Span> = IndexMap::new();
    let plain_text = "plain prose here\n\nand a second paragraph";
    let chunk = CheckableChunk::from_str(plain_text, mapping);
    let overlay = chunk.erase_markdown();
    assert_eq!(overlay.plain, plain_text);
    let mapping2: IndexMap<ByteRange, Span> = IndexMap::new();
    let chunk2 = CheckableChunk::from_str(&overlay.plain, mapping2);
    let overlay2 = chunk2.erase_markdown();
    assert_eq!(overlay2.plain, overlay.plain);
    assert_eq!(overlay2.chunk_map, overlay.chunk_map);
}

#[test]
fn composing_overlay_and_chunk_maps_recovers_the_original_spans() {
    let sets = extract_developer_comments("// ab\n// cd");
    let chunk = CheckableChunk::from_literalset(sets.into_iter().next().unwrap());
    let overlay = chunk.erase_markdown();
    // plain content: the overlay is the identity, entry for entry
    assert_eq!(overlay.plain, chunk.as_str());
    assert_eq!(overlay.chunk_map.len(), chunk.source_mapping.len());
    for i in 0..overlay.chunk_map.len() {
        let (plain_range, chunk_range) = overlay.chunk_map[i];
        assert_eq!(plain_range, chunk_range);
        let (expected_range, _) = chunk.source_mapping.get_index(i).unwrap();
        assert_eq!(&chunk_range, expected_range);
    }
    // the full plain range, taken through the overlay into the chunk and
    // inverted, is the original span set
    let full = ByteRange { start: 0, end: overlay.plain.len() };
    let found = chunk.find_spans(full);
    assert_eq!(found.len(), chunk.source_mapping.len());
    for i in 0..found.len() {
        assert_eq!(found.get_index(i), chunk.source_mapping.get_index(i));
    }
}

#[test]
fn token_kinds_describe_themselves() {
    assert_eq!(TokenType::BlockComment.describe(), "developer block comment");
    assert_eq!(TokenType::LineComment.describe(), "developer line comment");
    assert_eq!(TokenType::Other.describe(), "not a developer comment");
    assert_eq!(TokenType::BlockComment.pre(), "/*");
    assert_eq!(TokenType::BlockComment.post(), "*/");
    assert_eq!(TokenType::LineComment.pre(), "//");
    assert_eq!(TokenType::LineComment.post(), "");
}

#[test]
fn every_literal_set_of_a_file_becomes_one_chunk() {
    let sets = extract_developer_comments("// a\nfn x(){}\n/* b */");
    assert_eq!(sets.len(), 2);
    let chunks = CheckableChunk::from_literalsets(sets);
    assert_eq!(chunks.len(), 2);
    assert_eq!(chunks[0].as_str(), " a");
    assert_eq!(chunks[1].as_str(), " b ");
}

#[test]
fn linux_defaults_are_appended_to_configured_dirs() {
    let mut dirs = SearchDirs::from_dirs(vec!["/custom/dict".to_string()]);
    dirs.extend_with_os_defaults(HostOs::Linux, None);
    assert_eq!(
        dirs.dirs(),
        &vec![
            "/custom/dict".to_string(),
            "/usr/share/myspell/".to_string(),
            "/usr/share/hunspell/".to_string(),
            "/usr/share/myspell/dicts/".to_string(),
        ]
    );
}

#[test]
fn macos_defaults_need_a_home_directory() {
    let home = "/home/someone".to_string();
    let with_home = os_specific_search_dirs(HostOs::MacOs, Some(&home));
    assert_eq!(
        with_home,
        vec!["/home/someone/Library/Spelling/".to_string(), "/Library/Spelling/".to_string()]
    );
    assert_eq!(os_specific_search_dirs(HostOs::MacOs, None).len(), 0);
    assert_eq!(os_specific_search_dirs(HostOs::Other, None).len(), 0);
}
