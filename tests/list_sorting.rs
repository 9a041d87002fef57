use anansi::{build_default_list, SortBy, Task};

#[test]
fn sort_by_prio_unique() {
    let mut list = build_default_list("prio_sorting.txt");
    list.add("(Z) Task 1");
    list.add("(X) Task 2");
    list.add("(Q) Task 3");
    list.add("(L) Task 4");
    list.add("(J) Task 5");
    list.add("(H) Task 6");
    list.add("(C) Task 7");
    list.add("(A) Task 8");

    let sorted_tasks = list.sort(SortBy::Priority);
    println!("{:?}", sorted_tasks);
    assert_eq!(sorted_tasks[0].original(), "(A) Task 8");
    assert_eq!(sorted_tasks[1].original(), "(C) Task 7");
    assert_eq!(sorted_tasks[2].original(), "(H) Task 6");
    assert_eq!(sorted_tasks[3].original(), "(J) Task 5");
    assert_eq!(sorted_tasks[4].original(), "(L) Task 4");
    assert_eq!(sorted_tasks[5].original(), "(Q) Task 3");
    assert_eq!(sorted_tasks[6].original(), "(X) Task 2");
    assert_eq!(sorted_tasks[7].original(), "(Z) Task 1");
}

#[test]
fn sort_by_priority_non_unique() {
    let mut list = build_default_list("prio_sorting.txt");
    // 8 tasks for Z, 1 task for X, 1 task for Q, 5 tasks for L, 5 tasks for J, 2 tasks for H
    list.add("(Z) Task 1");
    list.add("(Z) Task 2");
    list.add("(Z) Task 3");
    list.add("(Z) Task 4");
    list.add("(Z) Task 5");
    list.add("(Z) Task 6");
    list.add("(Z) Task 7");
    list.add("(Z) Task 8");
    list.add("(X) Task 9");
    list.add("(Q) Task 10");
    list.add("(L) Task 11");
    list.add("(L) Task 12");
    list.add("(L) Task 13");
    list.add("(L) Task 14");
    list.add("(L) Task 15");
    list.add("(L) Task 16");
    list.add("(L) Task 17");
    list.add("(L) Task 18");
    list.add("(L) Task 19");
    list.add("(L) Task 20");
    list.add("(J) Task 21");
    list.add("(J) Task 22");
    list.add("(J) Task 23");
    list.add("(J) Task 24");
    list.add("(J) Task 25");
    list.add("(H) Task 26");
    list.add("(H) Task 27");

    let sorted_tasks = list.sort(SortBy::Priority);
    assert_eq!(sorted_tasks[0].original(), "(H) Task 26");
    assert_eq!(sorted_tasks[1].original(), "(H) Task 27");
    assert_eq!(sorted_tasks[2].original(), "(J) Task 21");
    assert_eq!(sorted_tasks[3].original(), "(J) Task 22");
    assert_eq!(sorted_tasks[4].original(), "(J) Task 23");
    assert_eq!(sorted_tasks[5].original(), "(J) Task 24");
    assert_eq!(sorted_tasks[6].original(), "(J) Task 25");
    assert_eq!(sorted_tasks[7].original(), "(L) Task 11");
    assert_eq!(sorted_tasks[8].original(), "(L) Task 12");
    assert_eq!(sorted_tasks[9].original(), "(L) Task 13");
    assert_eq!(sorted_tasks[10].original(), "(L) Task 14");
    assert_eq!(sorted_tasks[11].original(), "(L) Task 15");
    assert_eq!(sorted_tasks[12].original(), "(L) Task 16");
    assert_eq!(sorted_tasks[13].original(), "(L) Task 17");
    assert_eq!(sorted_tasks[14].original(), "(L) Task 18");
    assert_eq!(sorted_tasks[15].original(), "(L) Task 19");
    assert_eq!(sorted_tasks[16].original(), "(L) Task 20");
    assert_eq!(sorted_tasks[17].original(), "(Q) Task 10");
    assert_eq!(sorted_tasks[18].original(), "(X) Task 9");
    assert_eq!(sorted_tasks[19].original(), "(Z) Task 1");
    assert_eq!(sorted_tasks[20].original(), "(Z) Task 2");
    assert_eq!(sorted_tasks[21].original(), "(Z) Task 3");
    assert_eq!(sorted_tasks[22].original(), "(Z) Task 4");
    assert_eq!(sorted_tasks[23].original(), "(Z) Task 5");
    assert_eq!(sorted_tasks[24].original(), "(Z) Task 6");
    assert_eq!(sorted_tasks[25].original(), "(Z) Task 7");
    assert_eq!(sorted_tasks[26].original(), "(Z) Task 8");
}

#[test]
fn sort_by_inception_date_unique() {
    let mut list = build_default_list("date_sorting.txt");
    list.add("2022-01-08 (A) Task 1");
    list.add("2022-01-07 (A) Task 2");
    list.add("2022-01-06 (A) Task 3");
    list.add("2022-01-05 (A) Task 4");
    list.add("2022-01-04 (A) Task 5");
    list.add("2022-01-03 (A) Task 6");
    list.add("2022-01-02 (A) Task 7");
    list.add("2022-01-01 (A) Task 8");

    let sorted_tasks = list.sort(SortBy::InceptionDate);
    assert_eq!(sorted_tasks[0].original(), "2022-01-01 (A) Task 8");
    assert_eq!(sorted_tasks[1].original(), "2022-01-02 (A) Task 7");
    assert_eq!(sorted_tasks[2].original(), "2022-01-03 (A) Task 6");
    assert_eq!(sorted_tasks[3].original(), "2022-01-04 (A) Task 5");
    assert_eq!(sorted_tasks[4].original(), "2022-01-05 (A) Task 4");
    assert_eq!(sorted_tasks[5].original(), "2022-01-06 (A) Task 3");
    assert_eq!(sorted_tasks[6].original(), "2022-01-07 (A) Task 2");
    assert_eq!(sorted_tasks[7].original(), "2022-01-08 (A) Task 1");
}

#[test]
fn sort_by_inception_date_non_unique() {
    let mut list = build_default_list("date_sorting.txt");
    list.add("2022-01-02 (A) Task 9");
    list.add("2022-01-02 (B) Task 10");
    list.add("2022-01-02 (C) Task 11");
    list.add("2022-01-02 (D) Task 12");
    list.add("2022-01-02 (E) Task 13");
    list.add("2022-01-02 (F) Task 14");
    list.add("2022-01-02 (G) Task 15");
    list.add("2022-01-02 (H) Task 16");

    list.add("2022-01-01 (A) Task 1");
    list.add("2022-01-01 (B) Task 2");
    list.add("2022-01-01 (C) Task 3");
    list.add("2022-01-01 (D) Task 4");
    list.add("2022-01-01 (E) Task 5");
    list.add("2022-01-01 (F) Task 6");
    list.add("2022-01-01 (G) Task 7");
    list.add("2022-01-01 (H) Task 8");

    let sorted_tasks = list.sort(SortBy::InceptionDate);
    assert_eq!(sorted_tasks[0].original(), "2022-01-01 (A) Task 1");
    assert_eq!(sorted_tasks[1].original(), "2022-01-01 (B) Task 2");
    assert_eq!(sorted_tasks[2].original(), "2022-01-01 (C) Task 3");
    assert_eq!(sorted_tasks[3].original(), "2022-01-01 (D) Task 4");
    assert_eq!(sorted_tasks[4].original(), "2022-01-01 (E) Task 5");
    assert_eq!(sorted_tasks[5].original(), "2022-01-01 (F) Task 6");
    assert_eq!(sorted_tasks[6].original(), "2022-01-01 (G) Task 7");
    assert_eq!(sorted_tasks[7].original(), "2022-01-01 (H) Task 8");
    assert_eq!(sorted_tasks[8].original(), "2022-01-02 (A) Task 9");
    assert_eq!(sorted_tasks[9].original(), "2022-01-02 (B) Task 10");
    assert_eq!(sorted_tasks[10].original(), "2022-01-02 (C) Task 11");
    assert_eq!(sorted_tasks[11].original(), "2022-01-02 (D) Task 12");
    assert_eq!(sorted_tasks[12].original(), "2022-01-02 (E) Task 13");
    assert_eq!(sorted_tasks[13].original(), "2022-01-02 (F) Task 14");
    assert_eq!(sorted_tasks[14].original(), "2022-01-02 (G) Task 15");
    assert_eq!(sorted_tasks[15].original(), "2022-01-02 (H) Task 16");
}

#[test]
fn sort_by_completion_date_unique() {
    let mut list = build_default_list("date_sorting.txt");
    list.add("x 2022-02-18 2022-01-08 (A) Task 1");
    list.add("x 2022-02-17 2022-01-07 (A) Task 2");
    list.add("x 2022-02-16 2022-01-06 (A) Task 3");
    list.add("x 2022-02-15 2022-01-05 (A) Task 4");
    list.add("x 2022-02-14 2022-01-04 (A) Task 5");
    list.add("x 2022-02-13 2022-01-03 (A) Task 6");
    list.add("x 2022-02-12 2022-01-02 (A) Task 7");
    list.add("x 2022-02-11 2022-01-01 (A) Task 8");

    let sorted_tasks = list.sort(SortBy::CompletionDate);
    assert_eq!(sorted_tasks[0].original(), "x 2022-02-11 2022-01-01 (A) Task 8");
    assert_eq!(sorted_tasks[1].original(), "x 2022-02-12 2022-01-02 (A) Task 7");
    assert_eq!(sorted_tasks[2].original(), "x 2022-02-13 2022-01-03 (A) Task 6");
    assert_eq!(sorted_tasks[3].original(), "x 2022-02-14 2022-01-04 (A) Task 5");
    assert_eq!(sorted_tasks[4].original(), "x 2022-02-15 2022-01-05 (A) Task 4");
    assert_eq!(sorted_tasks[5].original(), "x 2022-02-16 2022-01-06 (A) Task 3");
    assert_eq!(sorted_tasks[6].original(), "x 2022-02-17 2022-01-07 (A) Task 2");
    assert_eq!(sorted_tasks[7].original(), "x 2022-02-18 2022-01-08 (A) Task 1");
}

#[test]
fn sort_by_completion_date_non_unique() {
    let mut list = build_default_list("date_sorting.txt");
    list.add("x 2022-02-18 2022-01-08 (A) Task 1");
    list.add("x 2022-02-18 2022-01-08 (A) Task 2");
    list.add("x 2022-02-18 2022-01-08 (A) Task 3");
    list.add("x 2022-02-18 2022-01-08 (A) Task 4");
    list.add("x 2022-02-18 2022-01-08 (A) Task 5");
    list.add("x 2022-02-18 2022-01-08 (A) Task 6");
    list.add("x 2022-02-18 2022-01-08 (A) Task 7");
    list.add("x 2022-02-18 2022-01-08 (A) Task 8");

    list.add("x 2022-02-08 2022-01-08 (A) Task 9");
    list.add("x 2022-02-08 2022-01-08 (A) Task 10");
    list.add("x 2022-02-08 2022-01-08 (A) Task 11");
    list.add("x 2022-02-08 2022-01-08 (A) Task 12");
    list.add("x 2022-02-08 2022-01-08 (A) Task 13");
    list.add("x 2022-02-08 2022-01-08 (A) Task 14");
    list.add("x 2022-02-08 2022-01-08 (A) Task 15");
    list.add("x 2022-02-08 2022-01-08 (A) Task 16");

    let sorted_tasks = list.sort(SortBy::CompletionDate);
    assert_eq!(sorted_tasks[0].original(), "x 2022-02-08 2022-01-08 (A) Task 9");
    assert_eq!(sorted_tasks[1].original(), "x 2022-02-08 2022-01-08 (A) Task 10");
    assert_eq!(sorted_tasks[2].original(), "x 2022-02-08 2022-01-08 (A) Task 11");
    assert_eq!(sorted_tasks[3].original(), "x 2022-02-08 2022-01-08 (A) Task 12");
    assert_eq!(sorted_tasks[4].original(), "x 2022-02-08 2022-01-08 (A) Task 13");
    assert_eq!(sorted_tasks[5].original(), "x 2022-02-08 2022-01-08 (A) Task 14");
    assert_eq!(sorted_tasks[6].original(), "x 2022-02-08 2022-01-08 (A) Task 15");
    assert_eq!(sorted_tasks[7].original(), "x 2022-02-08 2022-01-08 (A) Task 16");
    assert_eq!(sorted_tasks[8].original(), "x 2022-02-18 2022-01-08 (A) Task 1");
    assert_eq!(sorted_tasks[9].original(), "x 2022-02-18 2022-01-08 (A) Task 2");
    assert_eq!(sorted_tasks[10].original(), "x 2022-02-18 2022-01-08 (A) Task 3");
    assert_eq!(sorted_tasks[11].original(), "x 2022-02-18 2022-01-08 (A) Task 4");
    assert_eq!(sorted_tasks[12].original(), "x 2022-02-18 2022-01-08 (A) Task 5");
    assert_eq!(sorted_tasks[13].original(), "x 2022-02-18 2022-01-08 (A) Task 6");
    assert_eq!(sorted_tasks[14].original(), "x 2022-02-18 2022-01-08 (A) Task 7");
    assert_eq!(sorted_tasks[15].original(), "x 2022-02-18 2022-01-08 (A) Task 8");
}

#[test]
fn simple_use() {
    let mut list = build_default_list("list.txt");
    list.add("Task 1");
    list.add("x Task 2");
    list.add("Task 3");
    assert_eq!(list.open().len(), 2);
    assert_eq!(list.done().len(), 1);
}

#[test]
fn simple_extensive_use() {
    let mut list = build_default_list("list.txt");
    // 25 tasks
    list.add("(A) Task 1");
    list.add("(A) Task 2 @air");
    list.add("(B) Task 3 @AIR");
    list.add("(Z) Task 4 @AirCraft");
    list.add("(A) Task 5");
    list.add("(B) Task 6");
    list.add("(Z) Task 7");
    list.add("(A) Task 8");
    list.add("(B) Task 9");
    list.add("(Z) Task 10");
    list.add("(A) Task 11");
    list.add("(B) Task 12");
    list.add("(Z) Task 13");
    list.add("(A) Task 14");
    list.add("(B) Task 15");
    list.add("(Z) Task 16");
    list.add("(A) Task 17");
    list.add("(B) Task 18");
    list.add("(Z) Task 19");
    list.add("(A) Task 20");
    list.add("(B) Task 21");
    list.add("(Z) Task 22");
    list.add("(A) Task 23");
    list.add("(B) Task 24");
    list.add("(Z) Task 25");

    assert_eq!(list.by_prio("a").tasks().len(), 9);
    assert_eq!(list.by_prio("b").tasks().len(), 8);
    assert_eq!(list.by_prio("z").tasks().len(), 8);
    assert_eq!(list.done().len(), 0);
    assert_eq!(list.open().len(), 25);
    assert_eq!(list.by_context("aircraft").tasks().len(), 1);
    assert_eq!(list.by_context("air").tasks().len(), 3);
    assert_eq!(list.by_special("due").tasks().len(), 0);
    assert_eq!(list.by_project("proj").tasks().len(), 0);
    let new_task1 = Task::new("Task 1", 0);
    assert!(list.update(new_task1.clone(), 0).is_ok());
    assert_eq!(new_task1, list.get(0).unwrap());
}
