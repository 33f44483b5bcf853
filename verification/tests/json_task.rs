use rofitodo::Date;
use rofitodo::JsonTask;
use rofitodo::Task;

#[test]
fn from_to() {
    let t1 = Task::new(String::from("a task"));
    let t2 = JsonTask::from(&t1).to_task();
    assert_eq!(t2.get_content(), t1.get_content());
    assert_eq!(t2.get_due(), t1.get_due());
    let t3 = Task::new_with_date(String::from("another task"), Date::new(2021, 1, 1).unwrap());
    let t4 = JsonTask::from(&t3).to_task();
    assert_eq!(t4.get_content(), t3.get_content());
    assert_eq!(t4.get_due(), t3.get_due());
}

#[test]
fn to_from() {
    let t1 = JsonTask::new(String::from("test json task"), None);
    let t2 = t1.to_task();
    assert_eq!(t2.get_content(), "test json task");
    assert_eq!(*t2.get_due(), None);
    let t3 = JsonTask::new(String::from("test json task"), Some(String::from("2021-01-01")));
    let t4 = t3.to_task();
    assert_eq!(t4.get_content(), "test json task");
    assert_eq!(*t4.get_due(), Some(Date::new(2021, 1, 1).unwrap()));
}
