use rofitodo::Task;
use rofitodo::TaskList;

#[test]
fn comp_date_nodate() {
    let t1 = Task::from_todotxt(String::from("a task")).unwrap();
    let t2 = Task::from_todotxt(String::from("2021-01-01 another task")).unwrap();
    assert_eq!(t1.comp_creation_date(&t2), std::cmp::Ordering::Less);
    assert_eq!(t2.comp_creation_date(&t1), std::cmp::Ordering::Greater);
}

#[test]
fn comp_nodate_nodate() {
    let t1 = Task::new(String::from("b"));
    let t2 = Task::new(String::from("c"));
    assert_eq!(t1.comp_content(&t2), std::cmp::Ordering::Less);
    let t3 = Task::new(String::from("a"));
    assert_eq!(t1.comp_content(&t3), std::cmp::Ordering::Greater);
}

#[test]
fn comp_date_date() {
    let t1 = Task::from_todotxt(String::from("a task")).unwrap();
    let t2 = Task::from_todotxt(String::from("another task")).unwrap();
    assert_eq!(t1.comp_creation_date(&t2), std::cmp::Ordering::Less);
    assert_eq!(t2.comp_creation_date(&t1), std::cmp::Ordering::Greater);
}

#[test]
fn from_todotxt() {
    let t1 = Task::from_todotxt(String::from("(A) Thank Mom for the aaa @phone")).unwrap();
    assert_eq!(t1.get_content(), "Thank Mom for the aaa @phone");
    assert_eq!(t1.creation_date, None);
    assert_eq!(t1.completion_date, None);
    assert_eq!(t1.completion, false);
    assert_eq!(t1.priority, Some('A'));
    assert_eq!(*t1.get_context_tags(), vec!["phone"]);
    assert_eq!(*t1.get_project_tags(), Vec::<String>::new());

    let t2 = Task::from_todotxt(String::from("(B) Schedule Goodwill pickup +GarageSale @phone"))
        .unwrap();
    assert_eq!(t2.get_content(), "Schedule Goodwill pickup +GarageSale @phone");
    assert_eq!(t2.creation_date, None);
    assert_eq!(t2.completion_date, None);
    assert_eq!(t2.completion, false);
    assert_eq!(t2.priority, Some('B'));
    assert_eq!(*t2.get_context_tags(), vec!["phone"]);
    assert_eq!(*t2.get_project_tags(), vec!["GarageSale"]);

    let t3 = Task::from_todotxt(String::from("x Post signs around the neighborhood +GarageSale"))
        .unwrap();
    assert_eq!(t3.get_content(), "Post signs around the neighborhood +GarageSale");
    assert_eq!(t3.creation_date, None);
    assert_eq!(t3.completion_date, None);
    assert_eq!(t3.completion, true);
    assert_eq!(t3.priority, None);
    assert_eq!(*t3.get_context_tags(), Vec::<String>::new());
    assert_eq!(*t3.get_project_tags(), vec!["GarageSale"]);

    let t4 = Task::from_todotxt(String::from("2021-09-01 @GroceryStore Eskimo pies")).unwrap();
    assert_eq!(t4.get_content(), "@GroceryStore Eskimo pies");
    assert_eq!(t4.creation_date.unwrap().format_ymd(), "2021-09-01");
    assert_eq!(t4.completion_date, None);
    assert_eq!(t4.completion, false);
    assert_eq!(t4.priority, None);
    assert_eq!(*t4.get_context_tags(), vec!["GroceryStore"]);
    assert_eq!(*t4.get_project_tags(), Vec::<String>::new());
}

#[test]
fn push() {
    let mut tl = TaskList::new();
    let t1 = Task::new(String::from("a"));
    let t2 = Task::new(String::from("c"));
    let t3 = Task::new(String::from("b"));
    tl.push(t1.clone());
    tl.push(t2.clone());
    tl.push(t3.clone());
    assert_eq!(tl.get_content()[0].content, t1.content);
    assert_eq!(tl.get_content()[1].content, t3.content);
    assert_eq!(tl.get_content()[2].content, t2.content);
}

#[test]
fn push_and_remove() {
    let mut tl = TaskList::new();
    let t1 = Task::new(String::from("a"));
    let t2 = Task::new(String::from("c"));
    let t3 = Task::new(String::from("b"));
    let t4 = Task::new(String::from("d"));
    tl.push(t1.clone());
    tl.push(t2.clone());
    tl.push(t3.clone());
    tl.remove(2);
    tl.push(t4.clone());
    assert_eq!(tl.get_content()[0].content, t1.content);
    assert_eq!(tl.get_content()[1].content, t3.content);
    assert_eq!(tl.get_content()[2].content, t4.content);
}

#[test]
fn todotxt_round_trip() {
    let mut t = Task::from_todotxt(String::from("x (B) water the plants @home +garden")).unwrap();
    t.set_due(rofitodo::Date::new(2022, 3, 14));
    let line = t.to_todotxt();
    assert_eq!(line, String::from("x (B) water the plants @home +garden due:2022-03-14"));
    let back = Task::from_todotxt(line).unwrap();
    assert_eq!(back.get_content(), "water the plants @home +garden");
    assert_eq!(back.completion, true);
    assert_eq!(back.priority, Some('B'));
    assert_eq!(*back.get_context_tags(), vec!["home"]);
    assert_eq!(*back.get_project_tags(), vec!["garden"]);
    assert_eq!(*back.get_due(), rofitodo::Date::new(2022, 3, 14));
}

#[test]
fn due_tag_restores_due_date() {
    let t = Task::from_todotxt(String::from("a due:2021-01-01")).unwrap();
    assert_eq!(t.get_content(), "a");
    assert_eq!(*t.get_due(), rofitodo::Date::new(2021, 1, 1));
    // the latest due pair wins, like rebuilding a key-to-value map
    let u = Task::from_todotxt(String::from("a due:2021-01-01 due:2022-02-02")).unwrap();
    assert_eq!(*u.get_due(), rofitodo::Date::new(2022, 2, 2));
    // a value naming no calendar day leaves the task undated
    let v = Task::from_todotxt(String::from("a due:2021-99-99")).unwrap();
    assert_eq!(*v.get_due(), None);
}

#[test]
fn trailing_tags_need_single_spaces() {
    // only the chain of single-space-led tag words at the very end is
    // taken out of the content
    let t = Task::from_todotxt(String::from("note k:v  a:b")).unwrap();
    assert_eq!(t.get_content(), "note k:v ");
    let u = Task::from_todotxt(String::from("note k:v a:b")).unwrap();
    assert_eq!(u.get_content(), "note");
}

#[test]
fn tags_sorted_without_duplicates() {
    let t = Task::from_todotxt(String::from("call @zoe and @anna about @anna +b +a")).unwrap();
    assert_eq!(*t.get_context_tags(), vec!["anna", "zoe"]);
    assert_eq!(*t.get_project_tags(), vec!["a", "b"]);
}

#[test]
fn display_forms() {
    let mut t = Task::from_todotxt(String::from("(C) file the report")).unwrap();
    t.set_due(rofitodo::Date::new(2022, 3, 14));
    assert_eq!(t.to_string(), String::from("(C) 2022-03-14 : file the report"));
    let recap = t.recap_str();
    assert_eq!(
        recap,
        String::from("Task : file the report\nStatus : To do\nPriority : C\nDue date : 2022-03-14"),
    );
}

#[test]
fn completion_marks() {
    let mut t = Task::from_todotxt(String::from("pay rent")).unwrap();
    assert!(!t.completion);
    t.set_completed();
    assert!(t.completion);
    assert!(t.completion_date.is_some());
    assert!(t.creation_date.is_some());
    t.set_not_completed();
    assert!(!t.completion);
    assert_eq!(t.completion_date, None);
}

#[test]
fn change_sort_reorders() {
    let mut tl = TaskList::new();
    let mut t1 = Task::from_todotxt(String::from("b")).unwrap();
    t1.priority = Some('Z');
    let mut t2 = Task::from_todotxt(String::from("a")).unwrap();
    t2.priority = Some('A');
    tl.push(t1);
    tl.push(t2);
    assert_eq!(tl.get_content()[0].content, String::from("a"));
    tl.change_sort(rofitodo::SortTaskBy::Priority);
    assert_eq!(tl.get_content()[0].content, String::from("a"));
    assert_eq!(tl.get_content()[0].priority, Some('A'));
    assert_eq!(tl.get_content()[1].priority, Some('Z'));
}
