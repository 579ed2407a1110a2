use std::cmp::Ordering;

use kanban_rs::document::{KanbanCategoryStyle, KanbanDocument, Status};
use kanban_rs::document_layout::KanbanDocumentLayout;
use kanban_rs::filter::KanbanFilter;
use kanban_rs::item::{KanbanId, KanbanItem};
use kanban_rs::queue_view::QueueState;
use kanban_rs::sorting::{sort_completed_last, task_comparison_completed_last, ItemSort};
use kanban_rs::time_tracking::{TimeEntry, TimeRecords};

const TEST_TAG: &str = "The tag";
const TEST_DESCRIPTION: &str = "Hey";
const TEST_NAME: &str = "Name";
const TEST_CATEGORY: &str = "Category";
const TEST_ITEM_COUNT: usize = 3;

/// A document of `number_of_tasks` tasks with ids from 0, where task `i`
/// depends on the ids in `children[i]`.
fn make_document_easy(number_of_tasks: usize, children: &[Vec<KanbanId>]) -> KanbanDocument {
    let mut n = KanbanDocument::new();
    let mut ids = Vec::new();
    for _ in 0..number_of_tasks {
        ids.push(n.get_new_task().id);
    }
    for (index, child_set) in ids.iter().zip(children.iter()) {
        let mut task = n.get_task(*index).unwrap().clone();
        for child_id in child_set.iter() {
            let child = n.get_task(*child_id).unwrap().clone();
            task.add_child(&child);
        }
        n.replace_task(&task);
    }
    n
}

fn get_test_document() -> KanbanDocument {
    let mut document = KanbanDocument::new();
    let mut a = document.get_new_task();
    a.name = "Name".to_owned();
    a.tags.push("The tag".to_owned());
    let mut b = document.get_new_task();
    b.description = "Hey".to_owned();
    a.add_child(&b);
    document.replace_task(&a);
    document.replace_task(&b);
    let mut c = document.get_new_task();
    c.category = Some(TEST_CATEGORY.to_owned());
    document.replace_task(&c);
    assert!(document.get_tasks().len() == TEST_ITEM_COUNT);
    document
}

fn matching(document: &KanbanDocument, filter: &KanbanFilter) -> Vec<KanbanItem> {
    document
        .get_tasks()
        .iter()
        .filter(|x| filter.matches(x, document))
        .cloned()
        .collect()
}

#[test]
fn test_columnar_layout() {
    let children = vec![vec![1], Vec::new(), vec![3]];
    let mut document = make_document_easy(4, &children);
    {
        let mut task = document.get_task(1).unwrap().clone();
        task.completed = Some(chrono::Utc::now().timestamp_millis());
        document.replace_task(&task);
    }
    let mut layout = KanbanDocumentLayout::Columnar([Vec::new(), vec![], vec![]]);
    layout.update_cache(&document, &ItemSort::Unsorted, &KanbanFilter::NoFilter);
    if let KanbanDocumentLayout::Columnar(cache) = layout {
        assert_eq!(cache[0].len(), 2);
        assert_eq!(cache[1].len(), 1);
        assert_eq!(cache[2].len(), 1);
    } else {
        panic!("the layout changed kind");
    }
}

#[test]
fn test_contains_string() {
    let document = get_test_document();
    let tag_filter = KanbanFilter::ContainsString(TEST_TAG.to_owned());
    let name_filter = KanbanFilter::ContainsString("Name".to_owned());
    let description_filter = KanbanFilter::ContainsString(TEST_DESCRIPTION.to_owned());
    let category_filter = KanbanFilter::ContainsString(TEST_CATEGORY.to_owned());
    let name_matches = matching(&document, &name_filter);
    assert_eq!(name_matches[0].name.as_str(), TEST_NAME);
    let tag_matches = matching(&document, &tag_filter);
    assert_eq!(tag_matches[0].tags[0].as_str(), TEST_TAG);
    let description_matches = matching(&document, &description_filter);
    assert_eq!(description_matches[0].description, TEST_DESCRIPTION);
    let category_matches = matching(&document, &category_filter);
    assert!(category_matches[0]
        .category
        .as_ref()
        .is_some_and(|x| x == TEST_CATEGORY));
}

#[test]
fn test_category() {
    let document = get_test_document();
    let category_filter = KanbanFilter::MatchesCategory(TEST_CATEGORY.to_owned());
    let matches = matching(&document, &category_filter);
    assert_eq!(matches.len(), 1);
}

#[test]
fn test_none_filter() {
    let document = get_test_document();
    let tasks = matching(&document, &KanbanFilter::NoFilter);
    assert_eq!(tasks.len(), TEST_ITEM_COUNT);
}

#[test]
fn test_related_to() {
    let document = get_test_document();
    let parent_id = document.get_tasks()[0].id;
    let child_id = document.get_tasks()[1].id;
    let filter = KanbanFilter::RelatedTo(parent_id);
    assert_eq!(matching(&document, &filter).len(), 2);
    // Do the reciprocal
    let filter = KanbanFilter::RelatedTo(child_id);
    assert_eq!(matching(&document, &filter).len(), 2);
}

#[test]
fn test_cycle_detection() {
    let mut document = KanbanDocument::new();
    let mut a = KanbanItem::new(&mut document);
    let a_id = a.id;
    let b = KanbanItem::new(&mut document);
    let b_id = b.id;
    let c = KanbanItem::new(&mut document);
    let c_id = c.id;
    a.add_child(&b);
    document.replace_task(&a);
    document.replace_task(&b);
    document.replace_task(&c);
    let stored_a = document.get_task(a_id).unwrap().clone();
    let stored_b = document.get_task(b_id).unwrap().clone();
    let stored_c = document.get_task(c_id).unwrap().clone();
    assert!(!document.can_add_as_child(&stored_b, &stored_a));
    assert!(document.can_add_as_child(&stored_c, &stored_a));
}

#[test]
fn test_task_removal() {
    let mut document = KanbanDocument::new();
    let mut a = document.get_new_task();
    document.get_new_task();
    let c = document.get_new_task();
    a.add_child(&c);
    document.replace_task(&a);
    {
        let copy = document.get_task(a.id);
        assert!(copy.unwrap().child_tasks.len() == 1);
    }

    document.remove_task(&c);
    {
        let copy = document.get_task(a.id).unwrap();
        assert!(copy.child_tasks.is_empty());
    }
}

#[test]
fn test_inheritance() {
    let mut document = KanbanDocument::new();
    document.replace_category_style(
        "test_true",
        KanbanCategoryStyle {
            children_inherit_category: true,
            ..Default::default()
        },
    );
    document.replace_category_style(
        "test_false",
        KanbanCategoryStyle {
            children_inherit_category: false,
            ..Default::default()
        },
    );
    {
        let a_id: KanbanId;
        {
            let mut task_a = document.get_new_task();
            task_a.category = Some("test_true".to_owned());
            a_id = task_a.id;
            document.replace_task(&task_a);
        };
        {
            let mut task_b = document.get_new_task();
            task_b.inherit(document.get_task(a_id).unwrap(), &document);
            assert_eq!(task_b.category, Some("test_true".to_owned()));
        }
    }
    // It should of course, not apply on categories with the inheritance set to false
    {
        let mut task_a = document.get_new_task();
        task_a.category = Some("test_false".to_owned());
        document.replace_task(&task_a);
        let mut task_b = document.get_new_task();
        task_b.inherit(&task_a, &document);
        assert_eq!(task_b.category, None);
    }
}

#[test]
fn test_queue_state() {
    let children = vec![vec![4], vec![0], vec![1]];
    let mut document = make_document_easy(5, &children);

    let mut task = document.get_task(4).unwrap().clone();
    task.completed = Some(chrono::Utc::now().timestamp_millis());

    document.replace_task(&task);
    assert_eq!(document.get_task(1).unwrap().child_tasks.len(), 1);
    let mut qs = QueueState::new();
    qs.update(&document);
    assert_eq!(qs.cached_ready.len(), 2);
    assert!(qs.cached_ready.contains(&0));
    assert!(qs.cached_ready.contains(&3));
    // Make sure that every task that it collects is ready.
    for task in qs
        .cached_ready
        .iter()
        .map(|x| document.get_task(*x).unwrap())
    {
        assert_eq!(document.task_status(&task.id), Status::Ready);
    }
}

#[test]
fn test_sort_completed_last() {
    let mut document: KanbanDocument = KanbanDocument::new();
    let mut a = document.get_new_task();
    let b = document.get_new_task();
    a.completed = Some(chrono::Utc::now().timestamp_millis());
    document.replace_task(&a);
    let mut thing = vec![a.id, b.id];
    sort_completed_last(&document, &mut thing);
    assert_eq!(task_comparison_completed_last(&a, &b), Ordering::Greater);
    assert_eq!(task_comparison_completed_last(&b, &a), Ordering::Less);
    assert_eq!(a.id, thing[1]);
}

#[test]
fn test_recording() {
    let mut t = TimeRecords::new();
    t.entries.push((TimeEntry::Started(0), None));
    assert!(matches!(t.entries[0].0, TimeEntry::Started(_)));
    t.handle_record_request(None);
    assert!(matches!(t.entries[0].0, TimeEntry::Concluded(_, _)));
    assert_eq!(t.entries[0].0.duration(), t.duration());
    t.handle_record_request(None);
    assert_eq!(t.entries.len(), 2);
}
