use hard_disc::random::Random;
use hard_disc::simulator::cell::{init_cells, Cell};
use hard_disc::simulator::event::synchronisation::Synchronisation;
use hard_disc::simulator::event::{
    cancel_events, get_head_event_time, insert_event, pop_event, Event, NO_EVENT,
};
use hard_disc::simulator::scheduler::{lchild, parent, rchild, Scheduler};

fn barrier(time: u64, cell: usize) -> Event<u32> {
    Synchronisation::schedule(time, cell, 0)
}

#[test]
fn family_of_a_heap_position() {
    assert_eq!(parent(1), 0);
    assert_eq!(parent(2), 0);
    assert_eq!(parent(3), 1);
    assert_eq!(parent(4), 1);
    assert_eq!(parent(5), 2);
    assert_eq!(parent(6), 2);
    assert_eq!(lchild(0), 1);
    assert_eq!(rchild(0), 2);
    assert_eq!(lchild(3), 7);
    assert_eq!(rchild(3), 8);
    for n in 0..100 {
        assert_eq!(parent(lchild(n)), n);
        assert_eq!(parent(rchild(n)), n);
    }
}

#[test]
fn a_new_heap_lists_the_cells_in_order() {
    let (_, cells): (_, Vec<Cell<u32>>) = init_cells(&[3, 3]);
    let scheduler = Scheduler::new(&cells);
    assert!(scheduler.validate(&cells));
    assert_eq!(scheduler.get(&cells), 0);
    let rows = scheduler.show(&cells);
    assert_eq!(rows.len(), 9);
    for (n, row) in rows.iter().enumerate() {
        assert_eq!(*row, (n, NO_EVENT));
    }
}

#[test]
fn the_root_holds_the_earliest_cell() {
    let (_, mut cells): (_, Vec<Cell<u32>>) = init_cells(&[3, 3]);
    let mut scheduler = Scheduler::new(&cells);
    insert_event(barrier(50, 6), 6, &mut cells, &mut scheduler);
    assert_eq!(scheduler.get(&cells), 6);
    insert_event(barrier(70, 2), 2, &mut cells, &mut scheduler);
    assert_eq!(scheduler.get(&cells), 6);
    insert_event(barrier(20, 8), 8, &mut cells, &mut scheduler);
    assert_eq!(scheduler.get(&cells), 8);
    insert_event(barrier(10, 2), 2, &mut cells, &mut scheduler);
    assert_eq!(scheduler.get(&cells), 2);
    assert!(scheduler.validate(&cells));
    let rows = scheduler.show(&cells);
    assert_eq!(rows[0], (2, 10));
    for n in 1..rows.len() {
        assert!(rows[parent(n)].1 <= rows[n].1);
    }
}

#[test]
fn validate_detects_a_key_that_changed_behind_the_heap() {
    let (_, mut cells): (_, Vec<Cell<u32>>) = init_cells(&[3, 3]);
    let mut scheduler = Scheduler::new(&cells);
    insert_event(barrier(5, 0), 0, &mut cells, &mut scheduler);
    assert!(scheduler.validate(&cells));
    // an event put into a list without telling the heap
    cells[7].events.push(barrier(1, 7));
    assert!(!scheduler.validate(&cells));
    scheduler.update(&cells, 7, NO_EVENT, 1);
    assert!(scheduler.validate(&cells));
    assert_eq!(scheduler.get(&cells), 7);
}

#[test]
fn altered_in_any_order_the_cells_are_popped_in_ascending_order() {
    let (_, mut cells): (_, Vec<Cell<u32>>) = init_cells(&[5, 4]);
    let ncells: usize = cells.len();
    let mut scheduler = Scheduler::new(&cells);
    let mut random = Random::new(7);
    // a random order of the cells
    let mut order: Vec<usize> = (0..ncells).collect();
    for n in (1..ncells).rev() {
        let m: usize = random.next_u32() as usize % (n + 1);
        order.swap(n, m);
    }
    // every cell gets a head time, some of them twice
    for &c in order.iter() {
        let time: u64 = (random.next_u32() % 1000) as u64;
        insert_event(barrier(time, c), c, &mut cells, &mut scheduler);
        assert!(scheduler.validate(&cells));
    }
    for &c in order.iter().rev().take(7) {
        let time: u64 = (random.next_u32() % 1000) as u64;
        insert_event(barrier(time, c), c, &mut cells, &mut scheduler);
        assert!(scheduler.validate(&cells));
    }
    let mut popped: Vec<u64> = Vec::new();
    loop {
        let host: usize = scheduler.get(&cells);
        if cells[host].events.is_empty() {
            break;
        }
        let event = pop_event(host, &mut cells, &mut scheduler);
        popped.push(event.time);
        assert!(scheduler.validate(&cells));
    }
    assert_eq!(popped.len(), ncells + 7);
    for n in 1..popped.len() {
        assert!(popped[n - 1] <= popped[n]);
    }
    for cell in cells.iter() {
        assert!(cell.events.is_empty());
    }
}

#[test]
fn an_update_without_change_keeps_the_heap() {
    let (_, mut cells): (_, Vec<Cell<u32>>) = init_cells(&[3, 3]);
    let mut scheduler = Scheduler::new(&cells);
    let times: [u64; 9] = [40, 10, 30, 90, 20, 60, 80, 50, 70];
    for (c, &time) in times.iter().enumerate() {
        insert_event(barrier(time, c), c, &mut cells, &mut scheduler);
    }
    let before = scheduler.show(&cells);
    for (c, &time) in times.iter().enumerate() {
        scheduler.update(&cells, c, time, time);
        assert_eq!(scheduler.show(&cells), before);
    }
    // an insertion behind the head, or a cancellation that spares the head,
    // leaves the key and so the heap as they are
    insert_event(barrier(95, 3), 3, &mut cells, &mut scheduler);
    assert_eq!(scheduler.show(&cells), before);
    cancel_events(0, 3, &mut cells, &mut scheduler);
    assert_eq!(scheduler.show(&cells), before);
}

#[test]
fn the_head_time_of_an_empty_list_is_no_event() {
    let mut events: Vec<Event<u32>> = Vec::new();
    assert_eq!(get_head_event_time(&events), NO_EVENT);
    assert_eq!(NO_EVENT, u64::MAX);
    events.push(barrier(3, 0));
    events.push(barrier(8, 0));
    assert_eq!(get_head_event_time(&events), 3);
}

fn order(scheduler: &Scheduler, cells: &Vec<Cell<u32>>) -> Vec<usize> {
    scheduler.show(cells).iter().map(|row| row.0).collect()
}

#[test]
fn a_cell_rises_past_later_cells_only() {
    let (_, mut cells): (_, Vec<Cell<u32>>) = init_cells(&[3, 3]);
    let mut scheduler = Scheduler::new(&cells);
    assert_eq!(order(&scheduler, &cells), vec![0, 1, 2, 3, 4, 5, 6, 7, 8]);
    // cell 4 rises from position 4 over the positions 1 and 0
    insert_event(barrier(5, 4), 4, &mut cells, &mut scheduler);
    assert_eq!(order(&scheduler, &cells), vec![4, 0, 2, 3, 1, 5, 6, 7, 8]);
    // cell 7 rises from position 7 over 3 and 1, and stays below the equal key
    insert_event(barrier(5, 7), 7, &mut cells, &mut scheduler);
    assert_eq!(order(&scheduler, &cells), vec![4, 7, 2, 0, 1, 5, 6, 3, 8]);
    // a later event of the cell at the root changes nothing
    insert_event(barrier(6, 4), 4, &mut cells, &mut scheduler);
    assert_eq!(order(&scheduler, &cells), vec![4, 7, 2, 0, 1, 5, 6, 3, 8]);
}

#[test]
fn a_cell_sinks_below_the_child_of_the_lesser_key() {
    let (_, mut cells): (_, Vec<Cell<u32>>) = init_cells(&[3, 3]);
    let mut scheduler = Scheduler::new(&cells);
    insert_event(barrier(5, 4), 4, &mut cells, &mut scheduler);
    insert_event(barrier(5, 7), 7, &mut cells, &mut scheduler);
    insert_event(barrier(9, 2), 2, &mut cells, &mut scheduler);
    assert_eq!(order(&scheduler, &cells), vec![4, 7, 2, 0, 1, 5, 6, 3, 8]);
    // without its event cell 4 sinks below cell 7, whose key is the lesser one
    let event = pop_event(4, &mut cells, &mut scheduler);
    assert_eq!(event.time, 5);
    assert_eq!(order(&scheduler, &cells), vec![7, 4, 2, 0, 1, 5, 6, 3, 8]);
    // without its event cell 7 sinks below cell 2, and no further
    pop_event(7, &mut cells, &mut scheduler);
    assert_eq!(order(&scheduler, &cells), vec![2, 4, 7, 0, 1, 5, 6, 3, 8]);
    // of two children with equal keys the left one rises
    insert_event(barrier(3, 7), 7, &mut cells, &mut scheduler);
    insert_event(barrier(3, 4), 4, &mut cells, &mut scheduler);
    assert_eq!(order(&scheduler, &cells), vec![7, 4, 2, 0, 1, 5, 6, 3, 8]);
    insert_event(barrier(3, 2), 2, &mut cells, &mut scheduler);
    pop_event(7, &mut cells, &mut scheduler);
    assert_eq!(order(&scheduler, &cells), vec![4, 7, 2, 0, 1, 5, 6, 3, 8]);
}
