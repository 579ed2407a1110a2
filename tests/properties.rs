use kanban_rs::document::{KanbanDocument, Status, TaskRelation};
use kanban_rs::document_layout::{update_columnar, KanbanDocumentLayout};
use kanban_rs::filter::KanbanFilter;
use kanban_rs::focused_layout::Focus;
use kanban_rs::item::{KanbanId, KanbanItem};
use kanban_rs::priority_editor::PriorityEditor;
use kanban_rs::queue_view::QueueState;
use kanban_rs::recents::recents_with;
use kanban_rs::search::{rank_matches, SearchState};
use kanban_rs::session::{EditorRequest, KanbanSession, SummaryAction};
use kanban_rs::sorting::ItemSort;
use kanban_rs::time_tracking::{collect_child_durations_at, time_entry_count, CompletionAge, TimeEntry, TimeRecords};
use kanban_rs::tree_outline_layout::TreeOutline;
use kanban_rs::undo::{UndoItem, UndoLog};

fn new_named(document: &mut KanbanDocument, name: &str) -> KanbanItem {
    let mut t = document.get_new_task();
    t.name = name.to_owned();
    document.replace_task(&t);
    t
}

fn link(document: &mut KanbanDocument, parent: KanbanId, child: KanbanId) {
    let mut p = document.get_task(parent).unwrap().clone();
    let c = document.get_task(child).unwrap().clone();
    assert!(document.can_add_as_child(&p, &c));
    p.add_child(&c);
    document.replace_task(&p);
}

#[test]
fn ids_are_fresh_and_counted_up() {
    let mut document = KanbanDocument::new();
    let a = document.get_new_task();
    let b = document.get_new_task();
    let c = document.get_new_task();
    assert_eq!((a.id, b.id, c.id), (0, 1, 2));
}

#[test]
fn id_allocation_wraps_to_the_smallest_free_id() {
    let mut document = KanbanDocument::new();
    document.set_next_id_counter(i32::MAX);
    let a = document.get_new_task();
    assert_eq!(a.id, i32::MAX);
    let b = document.get_new_task();
    assert_eq!(b.id, i32::MIN);
    let c = document.get_new_task();
    assert_eq!(c.id, i32::MIN + 1);
}

#[test]
fn id_allocation_skips_taken_ids() {
    let mut document = KanbanDocument::new();
    let a = document.get_new_task();
    let b = document.get_new_task();
    document.set_next_id_counter(a.id);
    let c = document.get_new_task();
    assert_ne!(c.id, a.id);
    assert_ne!(c.id, b.id);
    assert_eq!(c.id, 2);
}

#[test]
fn cycle_rejection_both_ways() {
    let mut document = KanbanDocument::new();
    let a = new_named(&mut document, "A");
    let b = new_named(&mut document, "B");
    link(&mut document, a.id, b.id);
    let a = document.get_task(a.id).unwrap().clone();
    let b = document.get_task(b.id).unwrap().clone();
    assert!(!document.can_add_as_child(&b, &a));
    assert!(!document.can_add_as_child(&a, &a));
    let c = new_named(&mut document, "C");
    assert!(document.can_add_as_child(&c, &a));
}

#[test]
fn cycle_check_sees_unsaved_edits() {
    let mut document = KanbanDocument::new();
    let a = new_named(&mut document, "A");
    let mut b = new_named(&mut document, "B");
    // B depends on A only in an edit that is not written back yet.
    b.add_child(&a);
    assert!(!document.can_add_as_child(&a, &b));
    let stored_b = document.get_task(b.id).unwrap().clone();
    assert!(document.can_add_as_child(&a, &stored_b));
}

#[test]
fn status_derivation() {
    let mut document = KanbanDocument::new();
    let a = new_named(&mut document, "A");
    assert_eq!(document.task_status(&a.id), Status::Ready);
    let b = new_named(&mut document, "B");
    link(&mut document, a.id, b.id);
    assert_eq!(document.task_status(&a.id), Status::Blocked);
    let mut b = document.get_task(b.id).unwrap().clone();
    b.completed = Some(1_000);
    document.replace_task(&b);
    assert_eq!(document.task_status(&a.id), Status::Ready);
    let mut a = document.get_task(a.id).unwrap().clone();
    a.completed = Some(2_000);
    b.completed = None;
    document.replace_task(&b);
    document.replace_task(&a);
    assert_eq!(document.task_status(&a.id), Status::Completed);
}

#[test]
fn relation_both_directions() {
    let mut document = KanbanDocument::new();
    let a = new_named(&mut document, "A");
    let b = new_named(&mut document, "B");
    let c = new_named(&mut document, "C");
    let d = new_named(&mut document, "D");
    link(&mut document, a.id, b.id);
    link(&mut document, b.id, c.id);
    assert!(document.get_relation(a.id, c.id) == TaskRelation::ParentOf);
    assert!(document.get_relation(c.id, a.id) == TaskRelation::ChildOf);
    assert!(document.get_relation(a.id, a.id) == TaskRelation::TheItemItself);
    assert!(document.get_relation(a.id, d.id) == TaskRelation::Unrelated);
    let parents: Vec<KanbanId> = document.parents_of(c.id).iter().map(|t| t.id).collect();
    assert_eq!(parents, vec![b.id]);
}

#[test]
fn buckets_partition_every_task_once() {
    let mut document = KanbanDocument::new();
    let ids: Vec<KanbanId> = (0..6).map(|i| new_named(&mut document, &format!("t{i}")).id).collect();
    link(&mut document, ids[0], ids[1]);
    link(&mut document, ids[1], ids[2]);
    link(&mut document, ids[3], ids[4]);
    let mut done = document.get_task(ids[4]).unwrap().clone();
    done.completed = Some(5);
    document.replace_task(&done);
    let mut cache: [Vec<KanbanId>; 3] = [Vec::new(), Vec::new(), Vec::new()];
    update_columnar(&mut cache, &document, &KanbanFilter::NoFilter);
    assert_eq!(cache[0], vec![ids[2], ids[3], ids[5]]);
    assert_eq!(cache[1], vec![ids[0], ids[1]]);
    assert_eq!(cache[2], vec![ids[4]]);
    let mut all: Vec<KanbanId> = cache.concat();
    all.sort();
    assert_eq!(all, ids);
}

#[test]
fn completion_filter_on_columns() {
    let mut document = KanbanDocument::new();
    let a = new_named(&mut document, "A");
    let mut b = new_named(&mut document, "B");
    b.completed = Some(3);
    document.replace_task(&b);
    let mut cache: [Vec<KanbanId>; 3] = [Vec::new(), Vec::new(), Vec::new()];
    update_columnar(&mut cache, &document, &KanbanFilter::CompletionStatus(false));
    assert_eq!(cache[0], vec![a.id]);
    assert!(cache[2].is_empty());
}

#[test]
fn undo_of_create_removes_the_task() {
    let mut document = KanbanDocument::new();
    let mut log = UndoLog::new();
    let x = document.get_new_task();
    log.record(UndoItem::Create(kanban_rs::undo::CreationEvent { parent_id: None, new_task: x.clone() }));
    assert!(document.get_task(x.id).is_some());
    log.undo(&mut document);
    assert!(document.get_task(x.id).is_none());
    assert!(document.get_tasks().is_empty());
    assert!(log.is_empty());
}

#[test]
fn undo_of_modify_restores_the_former_value() {
    let mut document = KanbanDocument::new();
    let mut log = UndoLog::new();
    let x = new_named(&mut document, "before");
    let mut changed = x.clone();
    changed.name = "after".to_owned();
    changed.description = "more".to_owned();
    log.record(document.replace_task(&changed));
    assert_eq!(document.get_task(x.id).unwrap().name, "after");
    log.undo(&mut document);
    let back = document.get_task(x.id).unwrap();
    assert_eq!(back.name, "before");
    assert_eq!(back.description, "");
}

#[test]
fn undo_of_delete_restores_the_task_and_its_parents() {
    let mut document = KanbanDocument::new();
    let mut log = UndoLog::new();
    let first_parent = new_named(&mut document, "first parent");
    let second_parent = new_named(&mut document, "second parent");
    let x = new_named(&mut document, "x");
    let other = new_named(&mut document, "other");
    link(&mut document, first_parent.id, x.id);
    link(&mut document, second_parent.id, x.id);
    link(&mut document, second_parent.id, other.id);
    let x = document.get_task(x.id).unwrap().clone();
    let event = document.remove_task(&x);
    match &event {
        UndoItem::Delete(de) => assert_eq!(de.parent_ids, vec![first_parent.id, second_parent.id]),
        _ => panic!("removal must give a deletion event"),
    }
    assert_eq!(document.get_task(second_parent.id).unwrap().child_tasks, vec![other.id]);
    log.record(event);
    log.undo(&mut document);
    assert_eq!(document.get_task(x.id).unwrap().name, "x");
    assert_eq!(document.get_task(first_parent.id).unwrap().child_tasks, vec![x.id]);
    assert_eq!(document.get_task(second_parent.id).unwrap().child_tasks, vec![x.id, other.id]);
}

#[test]
fn creation_then_change_merge_into_one_event() {
    let mut document = KanbanDocument::new();
    let mut log = UndoLog::new();
    let x = document.get_new_task();
    log.record(UndoItem::Create(kanban_rs::undo::CreationEvent { parent_id: Some(7), new_task: x.clone() }));
    let mut named = x.clone();
    named.name = "typed".to_owned();
    log.record(document.replace_task(&named));
    log.undo(&mut document);
    assert!(log.is_empty());
    assert!(document.get_task(x.id).is_none());
}

#[test]
fn undo_on_empty_log_does_nothing() {
    let mut document = KanbanDocument::new();
    let x = new_named(&mut document, "x");
    let mut log = UndoLog::new();
    log.undo(&mut document);
    assert_eq!(document.get_task(x.id).unwrap().name, "x");
}

#[test]
fn undo_log_keeps_the_latest_entries() {
    let mut document = KanbanDocument::new();
    let mut log = UndoLog::new();
    let x = new_named(&mut document, "v0");
    for i in 1..=40 {
        let mut t = document.get_task(x.id).unwrap().clone();
        t.name = format!("v{i}");
        log.record(document.replace_task(&t));
    }
    let mut steps = 0;
    while !log.is_empty() {
        log.undo(&mut document);
        steps += 1;
    }
    assert_eq!(steps, 35);
    assert_eq!(document.get_task(x.id).unwrap().name, "v5");
}

#[test]
fn toggle_recording_twice() {
    let mut t = TimeRecords::new();
    t.handle_record_request_at(Some("work".to_owned()), 1_000);
    assert_eq!(t.entries.len(), 1);
    assert!(t.is_recording());
    assert_eq!(t.duration_at(4_000), 3_000);
    t.handle_record_request_at(None, 61_000);
    assert!(!t.is_recording());
    assert_eq!(t.entries[0].0, TimeEntry::Concluded(1_000, 61_000));
    assert_eq!(t.entries[0].1.as_deref(), Some("work"));
    assert_eq!(t.duration_at(99_000), 60_000);
    assert_eq!(t.duration_at(61_000), 60_000);
}

#[test]
fn toggle_recording_now_is_finite() {
    let mut t = TimeRecords::new();
    t.handle_record_request(None);
    assert!(t.is_recording());
    t.handle_record_request(None);
    assert!(!t.is_recording());
    assert!(t.duration() >= 0);
}

#[test]
fn total_duration_sums_every_kind() {
    let mut t = TimeRecords::new();
    t.entries.push((TimeEntry::InstanteousDuration(500), None));
    t.entries.push((TimeEntry::Concluded(10, 110), None));
    t.entries.push((TimeEntry::Started(1_000), None));
    assert_eq!(t.duration_at(1_250), 500 + 100 + 250);
    assert_eq!(TimeEntry::Started(5).conclude_at(9), TimeEntry::Concluded(5, 9));
}

#[test]
fn shared_sub_dependency_is_counted_once() {
    let mut document = KanbanDocument::new();
    let top = new_named(&mut document, "top");
    let left = new_named(&mut document, "left");
    let right = new_named(&mut document, "right");
    let shared = new_named(&mut document, "shared");
    link(&mut document, top.id, left.id);
    link(&mut document, top.id, right.id);
    link(&mut document, left.id, shared.id);
    link(&mut document, right.id, shared.id);
    for (id, ms) in [(left.id, 10i64), (right.id, 20), (shared.id, 1_000)] {
        let mut t = document.get_task(id).unwrap().clone();
        t.time_records.entries.push((TimeEntry::InstanteousDuration(ms), None));
        document.replace_task(&t);
    }
    assert_eq!(time_entry_count(&document), Some(3));
    let top = document.get_task(top.id).unwrap().clone();
    let r = collect_child_durations_at(&document, &top, 0);
    assert_eq!(r, vec![(left.id, 1_010), (right.id, 20)]);
    let total: i128 = r.iter().map(|x| x.1).sum();
    assert_eq!(total, 1_030);
}

#[test]
fn queue_orders_by_weight_then_id() {
    let mut document = KanbanDocument::new();
    let a = new_named(&mut document, "a");
    let mut b = new_named(&mut document, "b");
    let mut c = new_named(&mut document, "c");
    let mut d = new_named(&mut document, "d");
    b.priority = Some("High".to_owned());
    c.priority = Some("Low".to_owned());
    d.priority = Some("Unknown".to_owned());
    document.replace_task(&b);
    document.replace_task(&c);
    document.replace_task(&d);
    assert_eq!(document.task_priority_value(&b.id), 10);
    assert_eq!(document.task_priority_value(&d.id), 0);
    let mut q = QueueState::new();
    q.update(&document);
    assert_eq!(q.cached_ready, vec![b.id, c.id, d.id, a.id]);
}

#[test]
fn search_ranks_and_repeats() {
    let mut document = KanbanDocument::new();
    let a = new_named(&mut document, "write report");
    let b = new_named(&mut document, "water plants");
    let _c = new_named(&mut document, "xyz");
    let mut s = SearchState::new();
    s.search_prompt = "report".to_owned();
    s.update(&document);
    assert_eq!(s.matched_ids, vec![a.id]);
    let first = s.matched_ids.clone();
    s.update(&document);
    assert_eq!(s.matched_ids, first);
    s.force_update();
    s.update(&document);
    assert_eq!(s.matched_ids, first);
    s.search_prompt = "wr".to_owned();
    s.update(&document);
    assert!(s.matched_ids.contains(&a.id));
    assert!(!s.matched_ids.contains(&b.id) || s.matched_ids.len() == 2);
}

#[test]
fn empty_query_matches_everything() {
    let mut document = KanbanDocument::new();
    let a = new_named(&mut document, "one");
    let b = new_named(&mut document, "two");
    let mut s = SearchState::new();
    s.update(&document);
    assert_eq!(s.matched_ids, vec![b.id, a.id]);
}

#[test]
fn ranking_puts_best_score_first() {
    let r = rank_matches(&vec![(1, Some(5)), (2, None), (3, Some(9)), (4, Some(5))]);
    assert_eq!(r, vec![3, 4, 1]);
}

#[test]
fn focus_splits_dependencies_and_dependents() {
    let mut document = KanbanDocument::new();
    let a = new_named(&mut document, "a");
    let b = new_named(&mut document, "b");
    let c = new_named(&mut document, "c");
    let d = new_named(&mut document, "d");
    link(&mut document, a.id, b.id);
    link(&mut document, b.id, c.id);
    let mut f = Focus::new(b.id);
    f.update(&document);
    assert_eq!(f.children, vec![c.id]);
    assert_eq!(f.ancestors, vec![a.id]);
    assert!(!f.children.contains(&d.id) && !f.ancestors.contains(&d.id));
}

#[test]
fn outline_lists_levels_in_order() {
    let mut document = KanbanDocument::new();
    let root = new_named(&mut document, "root");
    let z = new_named(&mut document, "zeta");
    let y = new_named(&mut document, "alpha");
    let leaf = new_named(&mut document, "leaf");
    link(&mut document, root.id, z.id);
    link(&mut document, root.id, y.id);
    link(&mut document, z.id, leaf.id);
    let mut t = TreeOutline::new();
    t.update(&document, ItemSort::Name, &KanbanFilter::NoFilter);
    assert_eq!(t.entries().clone(), vec![(root.id, 0), (y.id, 1), (z.id, 1), (leaf.id, 2)]);
    t.update(&document, ItemSort::Id, &KanbanFilter::NoFilter);
    assert_eq!(t.entries().clone(), vec![(root.id, 0), (z.id, 1), (y.id, 1), (leaf.id, 2)]);
}

#[test]
fn outline_can_hide_completed_subtrees() {
    let mut document = KanbanDocument::new();
    let root = new_named(&mut document, "root");
    let mut done = new_named(&mut document, "done");
    let below = new_named(&mut document, "below");
    link(&mut document, done.id, below.id);
    done = document.get_task(done.id).unwrap().clone();
    done.completed = Some(1);
    document.replace_task(&done);
    link(&mut document, root.id, done.id);
    let mut t = TreeOutline::new();
    t.exclude_completed = true;
    t.update(&document, ItemSort::Unsorted, &KanbanFilter::NoFilter);
    assert_eq!(t.entries().clone(), vec![(root.id, 0)]);
}

#[test]
fn name_sort_follows_code_points() {
    let mut document = KanbanDocument::new();
    let b = new_named(&mut document, "b");
    let a2 = new_named(&mut document, "aa");
    let a1 = new_named(&mut document, "a");
    let mut ids = vec![b.id, a2.id, a1.id];
    ItemSort::Name.sort_by(&mut ids, &document);
    assert_eq!(ids, vec![a1.id, a2.id, b.id]);
    let mut same = vec![b.id, a2.id, a1.id];
    ItemSort::Unsorted.sort_by(&mut same, &document);
    assert_eq!(same, vec![b.id, a2.id, a1.id]);
}

#[test]
fn searchable_text_joins_fields() {
    let mut t = KanbanItem::new(&mut KanbanDocument::new());
    t.name = "N".to_owned();
    t.category = Some("C".to_owned());
    t.description = "D".to_owned();
    t.tags = vec!["x".to_owned(), "y".to_owned()];
    let mut s = String::from(">");
    t.fill_searchable_buffer(&mut s);
    assert_eq!(s, ">N C  D x y ");
    assert!(t.matches("D"));
    assert!(t.matches("y"));
    assert!(!t.matches("C"));
}

#[test]
fn layout_switch_drops_search_results() {
    let mut document = KanbanDocument::new();
    new_named(&mut document, "thing");
    let mut layout = KanbanDocumentLayout::Search(SearchState::new());
    layout.update_cache(&document, &ItemSort::Unsorted, &KanbanFilter::NoFilter);
    if let KanbanDocumentLayout::Search(s) = &layout {
        assert_eq!(s.matched_ids.len(), 1);
    }
    layout.inform_of_new_items();
    if let KanbanDocumentLayout::Search(s) = &layout {
        assert!(s.matched_ids.is_empty());
    }
}

#[test]
fn priority_editor_adds_weights() {
    let mut document = KanbanDocument::new();
    let mut editor = PriorityEditor::new();
    assert!(!editor.add_to(&mut document));
    editor.name = "Urgent".to_owned();
    editor.current_value = 42;
    assert!(editor.add_to(&mut document));
    assert!(editor.name.is_empty());
    let mut t = document.get_new_task();
    t.priority = Some("Urgent".to_owned());
    document.replace_task(&t);
    assert_eq!(document.task_priority_value(&t.id), 42);
}

#[test]
fn unknown_category_gets_a_plain_style() {
    let mut document = KanbanDocument::new();
    let mut t = document.get_new_task();
    t.category = Some("new".to_owned());
    document.replace_task(&t);
    let style = document.get_category_style(&"new".to_owned()).unwrap();
    assert!(!style.children_inherit_category);
    assert_eq!(document.get_categories().len(), 1);
}

#[test]
fn completion_age_in_each_unit() {
    let mut t = KanbanItem::new(&mut KanbanDocument::new());
    assert_eq!(t.completion_age_at(0), None);
    t.completed = Some(0);
    assert_eq!(t.completion_age_at(5 * 60_000 + 59_999), Some(CompletionAge::Minutes(5)));
    assert_eq!(t.completion_age_at(2 * 3_600_000 + 7 * 60_000), Some(CompletionAge::HoursMinutes(2, 7)));
    assert_eq!(t.completion_age_at(3 * 86_400_000 + 5 * 3_600_000), Some(CompletionAge::DaysHours(3, 5)));
    assert_eq!(t.completion_age_at(8 * 86_400_000), Some(CompletionAge::On(0)));
    assert_eq!(t.completion_age_at(-90_000), Some(CompletionAge::Minutes(-1)));
}

#[test]
fn priorities_sorted_by_weight() {
    let mut document = KanbanDocument::new();
    document.set_priority("Also five", 5);
    let sorted = document.get_sorted_priorities();
    let names: Vec<&str> = sorted.iter().map(|p| p.0.as_str()).collect();
    assert_eq!(names, vec!["Low", "Medium", "Also five", "High"]);
    document.set_priority("Low", 20);
    let sorted = document.get_sorted_priorities();
    assert_eq!(sorted.last().unwrap(), &("Low".to_owned(), 20));
}

#[test]
fn empty_document_has_no_weights() {
    let document = KanbanDocument::default();
    assert!(document.get_priorities().is_empty());
    assert!(document.get_tasks().is_empty());
}

#[test]
fn recent_files_put_latest_first() {
    let old: Vec<String> = (0..11).map(|i| format!("f{i}")).collect();
    let r = recents_with(&old, &"new".to_owned());
    assert_eq!(r.len(), 11);
    assert_eq!(r[0], "new");
    assert_eq!(r[10], "f9");
    let same = recents_with(&old, &"f3".to_owned());
    assert_eq!(same, old);
    let short = recents_with(&vec!["a".to_owned()], &"b".to_owned());
    assert_eq!(short, vec!["b".to_owned(), "a".to_owned()]);
}

#[test]
fn session_creates_dependents_and_undoes_them() {
    let mut session = KanbanSession::new();
    let parent = session.document.get_new_task();
    let child = session.handle_summary_action(&SummaryAction::CreateChildOf(parent.id)).unwrap();
    assert_eq!(session.document.get_task(parent.id).unwrap().child_tasks, vec![child.id]);
    assert_eq!(session.document.task_status(&parent.id), Status::Blocked);
    session.undo();
    assert!(session.document.get_task(child.id).is_none());
    assert!(session.document.get_task(parent.id).unwrap().child_tasks.is_empty());
    session.undo();
    assert!(session.document.get_task(parent.id).unwrap().child_tasks.is_empty());
}

#[test]
fn session_refuses_a_dependency_that_closes_a_cycle() {
    let mut session = KanbanSession::new();
    let a = session.document.get_new_task();
    let b = session.document.get_new_task();
    session.handle_summary_action(&SummaryAction::AddChildTo(a.id, b.id));
    assert_eq!(session.document.get_task(a.id).unwrap().child_tasks, vec![b.id]);
    session.handle_summary_action(&SummaryAction::AddChildTo(b.id, a.id));
    assert!(session.document.get_task(b.id).unwrap().child_tasks.is_empty());
    session.handle_summary_action(&SummaryAction::AddChildTo(a.id, a.id));
    assert_eq!(session.document.get_task(a.id).unwrap().child_tasks, vec![b.id]);
}

#[test]
fn session_toggles_completion() {
    let mut session = KanbanSession::new();
    let a = session.document.get_new_task();
    session.handle_summary_action_at(&SummaryAction::MarkCompleted(a.id), 77);
    assert_eq!(session.document.get_task(a.id).unwrap().completed, Some(77));
    session.handle_summary_action_at(&SummaryAction::MarkCompleted(a.id), 99);
    assert_eq!(session.document.get_task(a.id).unwrap().completed, None);
    session.undo();
    assert_eq!(session.document.get_task(a.id).unwrap().completed, Some(77));
}

#[test]
fn session_focus_switches_view() {
    let mut session = KanbanSession::new();
    let a = session.document.get_new_task();
    session.handle_summary_action(&SummaryAction::FocusOn(a.id));
    assert!(matches!(&session.current_layout, KanbanDocumentLayout::Focused(f) if f.cares_about == Some(a.id)));
}

#[test]
fn session_editor_requests() {
    let mut session = KanbanSession::new();
    let parent = session.document.get_new_task();
    let mut fresh = KanbanItem::new(&mut session.document);
    fresh.name = "new".to_owned();
    let opened = session.handle_editor_request(&EditorRequest::NewItem(parent.clone(), fresh.clone())).unwrap();
    assert_eq!(opened.name, "new");
    assert_eq!(session.document.get_task(fresh.id).unwrap().name, "new");
    let mut changed = opened.clone();
    changed.description = "text".to_owned();
    session.handle_editor_request(&EditorRequest::UpdateItem(changed.clone()));
    assert_eq!(session.document.get_task(fresh.id).unwrap().description, "text");
    session.handle_editor_request(&EditorRequest::DeleteItem(changed));
    assert!(session.document.get_task(fresh.id).is_none());
    session.undo();
    assert_eq!(session.document.get_task(fresh.id).unwrap().description, "text");
}

#[test]
fn accepted_edges_keep_queries_finite() {
    let mut session = KanbanSession::new();
    let ids: Vec<KanbanId> = (0..6).map(|_| session.document.get_new_task().id).collect();
    for i in 0..ids.len() {
        for j in 0..ids.len() {
            session.handle_summary_action(&SummaryAction::AddChildTo(ids[i], ids[j]));
        }
    }
    // Every pair was tried both ways; only the edges from a lower to a
    // higher id could be added, the rest would have closed a cycle.
    for i in 0..ids.len() {
        let expected: Vec<KanbanId> = ids[i + 1..].to_vec();
        assert_eq!(session.document.get_task(ids[i]).unwrap().child_tasks, expected);
        for j in 0..ids.len() {
            let r = session.document.get_relation(ids[i], ids[j]);
            if i < j {
                assert!(r == TaskRelation::ParentOf);
            } else if i > j {
                assert!(r == TaskRelation::ChildOf);
            }
        }
    }
    assert_eq!(session.document.task_status(&ids[5]), Status::Ready);
    assert_eq!(session.document.task_status(&ids[0]), Status::Blocked);
}

#[test]
fn deletion_event_keeps_the_stored_task() {
    let mut document = KanbanDocument::new();
    let stored = new_named(&mut document, "stored");
    let mut stale = stored.clone();
    stale.name = "edited elsewhere".to_owned();
    match document.remove_task(&stale) {
        UndoItem::Delete(de) => assert_eq!(de.former_item.name, "stored"),
        _ => panic!("removal must give a deletion event"),
    }
}

#[test]
fn outline_roots_ignore_the_filter() {
    let mut document = KanbanDocument::new();
    let mut top = new_named(&mut document, "top");
    let below = new_named(&mut document, "below");
    link(&mut document, top.id, below.id);
    top = document.get_task(top.id).unwrap().clone();
    top.completed = Some(1);
    document.replace_task(&top);
    let mut t = TreeOutline::new();
    t.update(&document, ItemSort::Unsorted, &KanbanFilter::CompletionStatus(false));
    assert!(t.entries().is_empty());
}
