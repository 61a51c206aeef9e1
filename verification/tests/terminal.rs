use std::collections::VecDeque;

use gcviz::app::handle_key_events;
use gcviz::app::reset_highlights;
use gcviz::app::App;
use gcviz::app::Key;
use gcviz::app::KeyPress;
use gcviz::gc::GCType;
use gcviz::grid::cell_area;
use gcviz::grid::Area;
use gcviz::heap::CellStatus;
use gcviz::heap::MemoryCell;
use gcviz::object::Field;
use gcviz::object::Object;
use gcviz::program::Instruction;
use gcviz::rts_cfg::ProgramRuntimeConfig;

fn press(c: char) -> KeyPress {
    KeyPress { key: Key::Char(c), control: false }
}

fn small_app() -> App {
    let program = VecDeque::from(vec![
        Instruction::Allocate {
            object: Object::new(vec![Field::new_scalar(1)]),
            is_root: true,
        },
        Instruction::Read { addr: 0 },
        Instruction::Read { addr: 5 },
    ]);
    App::new(ProgramRuntimeConfig::new(8, 0, GCType::MarkSweep), program)
}

#[test]
fn the_highlights_of_a_step_leave_the_cells() {
    let mut memory = vec![
        MemoryCell::new(CellStatus::Used),
        MemoryCell::new(CellStatus::ToBeFreed),
        MemoryCell::new(CellStatus::Marked),
        MemoryCell::free(),
        MemoryCell::new(CellStatus::Allocated),
    ];
    reset_highlights(&mut memory);
    let shown: Vec<CellStatus> = memory.iter().map(|c| c.status).collect();
    assert_eq!(
        shown,
        vec![
            CellStatus::Allocated,
            CellStatus::Free,
            CellStatus::Marked,
            CellStatus::Free,
            CellStatus::Allocated,
        ]
    );
}

#[test]
fn a_paused_application_runs_one_step_when_asked() {
    let mut app = small_app();
    app.tick();
    assert_eq!(app.session.instr_ptr, 1);
    handle_key_events(press(' '), &mut app);
    assert!(app.program_paused);
    app.tick();
    assert_eq!(app.session.instr_ptr, 1);
    handle_key_events(press('N'), &mut app);
    assert!(app.eval_next_frame);
    app.tick();
    assert_eq!(app.session.instr_ptr, 2);
    assert!(!app.eval_next_frame);
    assert_eq!(app.session.vm.heap.memory[0].status, CellStatus::Used);
    app.tick();
    assert_eq!(app.session.instr_ptr, 2);
    handle_key_events(press(' '), &mut app);
    assert!(!app.program_paused);
    handle_key_events(press('n'), &mut app);
    assert!(!app.eval_next_frame);
    // the third instruction fails: it stays, and the error is logged
    app.tick();
    assert_eq!(app.session.instr_ptr, 2);
    assert_eq!(app.session.logs.back().unwrap().msg, "SegmentationFault");
    assert_eq!(app.session.vm.heap.memory[0].status, CellStatus::Allocated);
}

#[test]
fn keys_quit_and_restart() {
    let mut app = small_app();
    app.tick();
    handle_key_events(press('r'), &mut app);
    assert_eq!(app.session.instr_ptr, 0);
    assert!(app.session.logs.is_empty());
    assert!(app.session.vm.heap.objects.is_empty());
    assert!(app.running);
    handle_key_events(press('c'), &mut app);
    assert!(app.running);
    handle_key_events(press('x'), &mut app);
    handle_key_events(KeyPress { key: Key::Other, control: true }, &mut app);
    assert!(app.running);
    handle_key_events(KeyPress { key: Key::Char('C'), control: true }, &mut app);
    assert!(!app.running);
    let mut other = small_app();
    handle_key_events(KeyPress { key: Key::Esc, control: false }, &mut other);
    assert!(!other.running);
    let mut third = small_app();
    handle_key_events(press('q'), &mut third);
    assert!(!third.running);
    third.restart();
    assert!(!third.running);
    third.quit();
    assert!(!third.running);
}

#[test]
fn the_cells_of_a_grid_share_out_the_area() {
    let inner = Area { x: 2, y: 3, width: 10, height: 5 };
    // three columns share ten units as 4, 3 and 3; two rows share five as 3 and 2
    assert_eq!(cell_area(inner, 3, 2, 0), Some(Area { x: 2, y: 3, width: 4, height: 3 }));
    assert_eq!(cell_area(inner, 3, 2, 1), Some(Area { x: 6, y: 3, width: 3, height: 3 }));
    assert_eq!(cell_area(inner, 3, 2, 2), Some(Area { x: 9, y: 3, width: 3, height: 3 }));
    assert_eq!(cell_area(inner, 3, 2, 3), Some(Area { x: 2, y: 6, width: 4, height: 2 }));
    assert_eq!(cell_area(inner, 3, 2, 5), Some(Area { x: 9, y: 6, width: 3, height: 2 }));
    assert_eq!(cell_area(inner, 3, 2, 6), None);
}

#[test]
fn a_grid_with_more_columns_than_units_has_empty_cells() {
    let inner = Area { x: 0, y: 0, width: 2, height: 1 };
    assert_eq!(cell_area(inner, 4, 1, 0), Some(Area { x: 0, y: 0, width: 1, height: 1 }));
    assert_eq!(cell_area(inner, 4, 1, 1), Some(Area { x: 1, y: 0, width: 1, height: 1 }));
    assert_eq!(cell_area(inner, 4, 1, 2), Some(Area { x: 2, y: 0, width: 0, height: 1 }));
    assert_eq!(cell_area(inner, 4, 1, 3), Some(Area { x: 2, y: 0, width: 0, height: 1 }));
}

#[test]
fn a_grid_at_the_edge_of_the_screen_fits() {
    let inner = Area { x: 65_000, y: 65_000, width: 535, height: 535 };
    assert_eq!(
        cell_area(inner, 1, 1, 0),
        Some(Area { x: 65_000, y: 65_000, width: 535, height: 535 })
    );
    assert_eq!(
        cell_area(inner, 2, 2, 3),
        Some(Area { x: 65_268, y: 65_268, width: 267, height: 267 })
    );
}

#[test]
fn the_list_shows_the_last_entries_first_as_far_as_they_fit() {
    let program: VecDeque<Instruction> = VecDeque::from(vec![
        Instruction::Allocate { object: Object::new(vec![Field::new_scalar(5)]), is_root: true },
        Instruction::Read { addr: 0 },
        Instruction::Read { addr: 9 },
    ]);
    let mut app = App::new(ProgramRuntimeConfig::new(16, 0, GCType::MarkSweep), program);
    app.tick();
    app.tick();
    app.tick();
    assert_eq!(
        app.event_lines(10),
        vec![
            "2. [ERROR] SegmentationFault".to_string(),
            "1. [MUT] Read value from 0x0. Value: 5".to_string(),
            "0. [ALLOC] Object [size: 1] [5] at 0x0".to_string(),
        ]
    );
    assert_eq!(app.event_lines(4), vec![
        "2. [ERROR] SegmentationFault".to_string(),
        "1. [MUT] Read value from 0x0. Value: 5".to_string(),
    ]);
    assert!(app.event_lines(2).is_empty());
    assert!(app.event_lines(1).is_empty());
    assert!(app.event_lines(0).is_empty());
}

#[test]
fn the_key_for_pausing_says_what_it_would_do() {
    let mut app = App::new(ProgramRuntimeConfig::default(), VecDeque::new());
    assert_eq!(app.pause_label(), "Pause");
    handle_key_events(press(' '), &mut app);
    assert_eq!(app.pause_label(), "Run");
}
