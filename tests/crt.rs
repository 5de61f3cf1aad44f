use aoc2022::crt::{Inst, CPU};

#[test]
fn instructions_read() {
    assert_eq!(Inst::new(&"noop".to_string()), Ok(Inst::NoOp));
    assert_eq!(Inst::new(&"addx -5".to_string()), Ok(Inst::AddX(-5)));
    assert_eq!(Inst::new(&"addx 13".to_string()), Ok(Inst::AddX(13)));
    assert!(Inst::new(&"addx".to_string()).is_err());
    assert!(Inst::new(&"addx  3".to_string()).is_err());
    assert!(Inst::new(&"mulx 3".to_string()).is_err());
    assert!(Inst::new(&"addx x".to_string()).is_err());
    assert!(Inst::new(&"noop ".to_string()).is_err());
}

#[test]
fn small_program() {
    let mut cpu = CPU::new();
    cpu.run(&Inst::NoOp);
    cpu.run(&Inst::AddX(3));
    cpu.run(&Inst::AddX(-5));
    assert_eq!(cpu.current_cycle, 5);
    assert_eq!(cpu.x, -1);
    let screen: String = cpu.crt_output.iter().collect();
    assert_eq!(screen, "#####");
}

#[test]
fn signal_samples() {
    let mut cpu = CPU::new();
    for _ in 0..19 {
        cpu.run(&Inst::NoOp);
    }
    cpu.run(&Inst::AddX(2));
    assert_eq!(cpu.signal_recording, vec![(20, 1)]);
    for _ in 0..39 {
        cpu.run(&Inst::NoOp);
    }
    assert_eq!(cpu.signal_recording, vec![(20, 1), (60, 3)]);
    assert_eq!(cpu.signal_strengths(), vec![20, 180]);
    assert_eq!(cpu.crt_output.iter().filter(|&&c| c == '\n').count(), 1);
    assert_eq!(cpu.crt_output[40], '\n');
}

#[test]
fn sprite_pixels() {
    let cpu = CPU { x: 5, current_cycle: 45, signal_recording: vec![], crt_output: vec![] };
    assert_eq!(cpu.draw_sprite(), '#');
    let cpu = CPU { x: 5, current_cycle: 48, signal_recording: vec![], crt_output: vec![] };
    assert_eq!(cpu.draw_sprite(), '.');
}

#[test]
fn whole_program_run() {
    let program = vec![Inst::NoOp, Inst::AddX(3), Inst::AddX(-5)];
    let cpu = CPU::run_program(&program);
    assert_eq!(cpu.current_cycle, 5);
    assert_eq!(cpu.x, -1);
    let screen: String = cpu.crt_output.iter().collect();
    assert_eq!(screen, "#####");
}
