use std::hash::{Hash, Hasher};

use zinnia_core::attachments::{referenced_attachments, select_unused, unused_attachments};
use zinnia_core::digest::{compute_hash, hex_digest};
use zinnia_core::dto::{NoteDTO, NoteMetadataDTO, RankingModeDTO};
use zinnia_core::frecency::calculate_frecency_score;
use zinnia_core::notes::{Error, Note, NoteMetadata, NoteRow, RankingMode};
use zinnia_core::schema::{pending_migrations, verify_schema, LATEST_VERSION};
use zinnia_core::text::{chars_of, push_decimal, string_of};

fn names(list: &[&str]) -> Vec<String> {
    list.iter().map(|s| s.to_string()).collect()
}

#[test]
fn test_frecency_score_calculation() {
    let now: i64 = 1_700_000_000;
    let points = |micros: i128| micros as f64 / 1e6;

    // Recent access should have high score
    let score_recent = points(calculate_frecency_score(10, Some(now), now));
    assert!(score_recent > 900.0); // 10 * (100 / ~1)  1000

    // Access from 10 days ago should have lower score
    let ten_days_ago = now - (10 * 86400);
    let score_old = points(calculate_frecency_score(10, Some(ten_days_ago), now));
    assert!(score_old < 100.0); // 10 * (100 / 11)  90

    // More accesses should increase score
    assert!(score_recent > score_old);

    // No access history should give zero score
    let score_none = points(calculate_frecency_score(0, None, now));
    assert_eq!(score_none, 0.0);
}

#[test]
fn the_score_is_exact_in_millionths() {
    let now: i64 = 1_700_000_000;
    assert_eq!(calculate_frecency_score(10, Some(now), now), 1_000_000_000);
    assert_eq!(calculate_frecency_score(10, Some(now - 864_000), now), 90_909_090);
    assert_eq!(calculate_frecency_score(1, Some(now - 86_400), now), 50_000_000);
    assert_eq!(calculate_frecency_score(3, Some(now - 43_200), now), 200_000_000);
    assert_eq!(calculate_frecency_score(7, Some(now + 5_000), now), 700_000_000);
    assert_eq!(calculate_frecency_score(7, None, now), 0);
    assert_eq!(
        calculate_frecency_score(i64::MAX, Some(i64::MIN), i64::MAX),
        (i64::MAX as i128 * 8_640_000_000_000) / (u64::MAX as i128 + 86_400)
    );
}

#[test]
fn the_digest_is_the_hash_in_hexadecimal() {
    for content in ["", "v", "hello", "Ünïcödé ✓", "line 1\nline 2\n"] {
        let mut hasher = std::collections::hash_map::DefaultHasher::new();
        content.hash(&mut hasher);
        assert_eq!(compute_hash(content), format!("{:x}", hasher.finish()));
    }
    assert_ne!(compute_hash("a"), compute_hash("b"));
    assert_ne!(compute_hash("a"), "a");
}

#[test]
fn hexadecimal_has_no_leading_zeros() {
    assert_eq!(hex_digest(0), "0");
    assert_eq!(hex_digest(15), "f");
    assert_eq!(hex_digest(16), "10");
    assert_eq!(hex_digest(0xdead_beef), "deadbeef");
    assert_eq!(hex_digest(u64::MAX), "ffffffffffffffff");
}

#[test]
fn decimal_has_no_leading_zeros() {
    for n in [0u128, 7, 10, 99, 1_700_000_000_123_456_789, u128::MAX] {
        let mut out = chars_of("t");
        push_decimal(&mut out, n);
        assert_eq!(string_of(&out), format!("t{}", n));
    }
}

#[test]
fn image_tokens_name_the_attachments_that_a_note_shows() {
    let content = "# My Note\n\n![Image 1](_attachments/image1.jpg)\n\nSome text.";
    assert_eq!(referenced_attachments(content).unwrap(), vec!["image1.jpg"]);
    let content = "![a](./_attachments/one.png) text ![](_attachments/two words.gif)![x](other/three.png)";
    assert_eq!(referenced_attachments(content).unwrap(), vec!["one.png", "two words.gif"]);
    assert!(referenced_attachments("# My Note\n\nNo images here.").unwrap().is_empty());
    assert_ne!(referenced_attachments(content).unwrap(), vec![content]);
}

#[test]
fn attachments_that_no_token_shows_are_unused() {
    let content = "# My Note\n\n![Image 1](_attachments/image1.jpg)\n\nSome text.";
    let files = names(&["image1.jpg", "image2.jpg", "image3.jpg"]);
    assert_eq!(unused_attachments(&files, content).unwrap(), vec!["image2.jpg", "image3.jpg"]);
    let files = names(&["unused.jpg"]);
    assert_eq!(
        unused_attachments(&files, "# My Note\n\nNo images here.").unwrap(),
        vec!["unused.jpg"]
    );
    assert!(unused_attachments(&Vec::new(), content).unwrap().is_empty());
}

#[test]
fn the_unused_files_keep_their_order() {
    let files = names(&["c", "a", "b", "a"]);
    assert_eq!(select_unused(&files, &names(&["b"])), vec!["c", "a", "a"]);
    assert_eq!(select_unused(&files, &names(&["a", "c", "b"])), Vec::<String>::new());
    assert_eq!(select_unused(&files, &Vec::new()), files);
}

#[test]
fn records_for_the_front_end_carry_the_same_values() {
    let note = Note { id: 7, path: "a/b".to_string(), content: "text".to_string(), modified: 99 };
    let dto = NoteDTO::from(note);
    assert_eq!((dto.id, dto.path.as_str(), dto.content.as_str(), dto.modified), (7, "a/b", "text", 99));
    let meta = NoteMetadata { id: 8, path: "c".to_string(), modified: 5, archived: true };
    let dto: NoteMetadataDTO = meta.into();
    assert_eq!((dto.id, dto.path.as_str(), dto.modified, dto.archived), (8, "c", 5, true));
    assert_eq!(RankingMode::from(RankingModeDTO::Visits), RankingMode::Visits);
    assert_eq!(RankingMode::from(RankingModeDTO::Frecency), RankingMode::Frecency);
}

#[test]
fn a_listing_shows_a_row_with_its_time_of_sync() {
    let row = NoteRow {
        id: 3,
        path: "p".to_string(),
        parent_path: None,
        mtime: 1_700_000_000,
        content_hash: "0".to_string(),
        archived: true,
        archived_at: Some(1),
        access_count: 2,
        direct_access_count: 1,
        last_accessed_at: Some(2),
        frecency_score: 200_000_000,
    };
    let meta = row.metadata();
    assert_eq!((meta.id, meta.path.as_str(), meta.modified, meta.archived), (3, "p", 1_700_000_000, true));
    let early = NoteRow { mtime: -1, ..row };
    assert_eq!(early.metadata().modified, u64::MAX);
}

#[test]
fn a_store_is_brought_up_to_date_version_by_version() {
    assert_eq!(pending_migrations(0), vec![1, 2, 3]);
    assert_eq!(pending_migrations(-4), vec![1, 2, 3]);
    assert_eq!(pending_migrations(1), vec![2, 3]);
    assert_eq!(pending_migrations(2), vec![3]);
    assert_eq!(pending_migrations(3), Vec::<i32>::new());
    assert_eq!(pending_migrations(7), Vec::<i32>::new());
    assert_eq!(LATEST_VERSION, 3);
}

#[test]
fn a_store_without_its_tables_is_corrupted() {
    assert!(verify_schema(true, true).is_ok());
    for (notes, shadow) in [(false, true), (true, false), (false, false)] {
        assert!(matches!(verify_schema(notes, shadow), Err(Error::DatabaseCorrupted)));
    }
}
