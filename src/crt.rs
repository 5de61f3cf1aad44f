//! A one-register CPU that draws on a CRT of 40-pixel rows as it runs.
use vstd::prelude::*;
use crate::cleanup::halves;
use crate::numbers::{find_only, i32_of, only_at, parse_i32};
use crate::words::is_word;

verus! {

#[derive(Clone, Copy, Debug, PartialEq, Eq, Structural)]
pub enum Inst {
    AddX(i32),
    NoOp,
}

/// The instruction a line spells: `noop`, or `addx` and a number separated
/// by one space.
pub open spec fn inst_of(s: Seq<char>) -> Option<Inst> {
    if s == "noop"@ {
        Some(Inst::NoOp)
    } else {
        match halves(s, ' ') {
            Some((a, b)) => if a == "addx"@ {
                match i32_of(b) {
                    Some(n) => Some(Inst::AddX(n)),
                    None => None,
                }
            } else {
                None
            },
            None => None,
        }
    }
}

impl Inst {
    pub fn new(l: &String) -> (r: Result<Inst, String>)
        ensures
            match inst_of(l@) {
                Some(i) => r == Ok::<Inst, String>(i),
                None => r is Err,
            },
    {
        let text = l.as_str();
        if is_word(text, "noop") {
            return Ok(Inst::NoOp);
        }
        let m = match find_only(text, ' ') {
            Some(m) => m,
            None => {
                return Err("invalid input line - expected 'addx N'".to_owned());
            },
        };
        proof {
            let c = choose|c: int| only_at(l@, ' ', c);
            assert(c == m);
        }
        let len = text.unicode_len();
        let op = text.substring_char(0, m);
        let arg = text.substring_char(m + 1, len);
        if !is_word(op, "addx") {
            return Err("invalid input line - expected 'addx N'".to_owned());
        }
        match parse_i32(arg) {
            Some(n) => Ok(Inst::AddX(n)),
            None => Err("Invalid Input - can't parse addx arg".to_owned()),
        }
    }
}

/// During cycle `c` the signal is sampled: the 20th cycle and every 40th
/// after it.
pub open spec fn sampled(c: int) -> bool {
    c == 20 || (c > 20 && (c - 20) % 40 == 0)
}

/// The pixel drawn during cycle `c` with the sprite centred at `x`: lit when
/// the sprite covers the pixel's column.
pub open spec fn pixel(c: int, x: int) -> char {
    let col = (c - 1) % 40;
    if col - x <= 1 && x - col <= 1 {
        '#'
    } else {
        '.'
    }
}

/// What cycle `c` adds to the recording of samples.
pub open spec fn samples_at(c: int, x: i32) -> Seq<(u32, i32)> {
    if sampled(c) {
        seq![(c as u32, x)]
    } else {
        Seq::empty()
    }
}

/// What cycle `c` adds to the screen: its pixel, and a line break after the
/// last pixel of a row.
pub open spec fn screen_at(c: int, x: int) -> Seq<char> {
    if c % 40 == 0 {
        seq![pixel(c, x), '\n']
    } else {
        seq![pixel(c, x)]
    }
}

/// The register, the cycles run so far, the samples taken and the screen.
pub struct CPU {
    pub x: i32,
    pub current_cycle: u32,
    pub signal_recording: Vec<(u32, i32)>,
    pub crt_output: Vec<char>,
}

impl CPU {
    /// Runs one instruction: `noop` takes one cycle, `addx` two, after which
    /// the register grows by its argument.
    pub fn run(&mut self, i: &Inst)
        requires
            old(self).current_cycle + 2 <= i32::MAX,
            *i matches Inst::AddX(n) ==> i32::MIN <= old(self).x + n <= i32::MAX,
        ensures
            ({
                let c = old(self).current_cycle as int;
                let x = old(self).x;
                match *i {
                    Inst::NoOp => {
                        &&& final(self).current_cycle == c + 1
                        &&& final(self).x == x
                        &&& final(self).signal_recording@ == old(self).signal_recording@ + samples_at(c + 1, x)
                        &&& final(self).crt_output@ == old(self).crt_output@ + screen_at(c + 1, x as int)
                    },
                    Inst::AddX(n) => {
                        &&& final(self).current_cycle == c + 2
                        &&& final(self).x == x + n
                        &&& final(self).signal_recording@ == old(self).signal_recording@ + samples_at(c + 1, x)
                            + samples_at(c + 2, x)
                        &&& final(self).crt_output@ == old(self).crt_output@ + screen_at(c + 1, x as int)
                            + screen_at(c + 2, x as int)
                    },
                }
            }),
    {
        self.current_cycle += 1;
        self.check_signal();
        match i {
            Inst::AddX(n) => {
                self.current_cycle += 1;
                self.check_signal();
                self.x = self.x + *n;
            },
            Inst::NoOp => {},
        }
    }

    /// The pixel of the current cycle.
    pub fn draw_sprite(&self) -> (r: char)
        requires
            1 <= self.current_cycle <= i32::MAX,
        ensures
            r == pixel(self.current_cycle as int, self.x as int),
    {
        let crt_pixel = (self.current_cycle - 1) as i32;
        let crt_pixel_norm = crt_pixel % 40;
        let d: i64 = crt_pixel_norm as i64 - self.x as i64;
        if -1 <= d && d <= 1 {
            '#'
        } else {
            '.'
        }
    }

    /// Records the current cycle: a sample when it is sampled, its pixel, and
    /// a line break at the end of a row.
    pub fn check_signal(&mut self)
        requires
            1 <= old(self).current_cycle <= i32::MAX,
        ensures
            final(self).x == old(self).x,
            final(self).current_cycle == old(self).current_cycle,
            final(self).signal_recording@ == old(self).signal_recording@ + samples_at(
                old(self).current_cycle as int,
                old(self).x,
            ),
            final(self).crt_output@ == old(self).crt_output@ + screen_at(
                old(self).current_cycle as int,
                old(self).x as int,
            ),
    {
        let ghost rec = self.signal_recording@;
        let ghost scr = self.crt_output@;
        if self.current_cycle == 20 || (self.current_cycle > 20 && (self.current_cycle - 20) % 40 == 0) {
            self.signal_recording.push((self.current_cycle, self.x));
        }
        assert(self.signal_recording@ =~= rec + samples_at(self.current_cycle as int, self.x));
        let p = self.draw_sprite();
        self.crt_output.push(p);
        if self.current_cycle % 40 == 0 {
            self.crt_output.push('\n')
        }
        assert(self.crt_output@ =~= scr + screen_at(self.current_cycle as int, self.x as int));
    }

    /// Each sample's cycle times its register value.
    pub fn signal_strengths(&self) -> (r: Vec<i32>)
        requires
            forall|k: int|
                0 <= k < self.signal_recording.len() ==> i32::MIN <= (#[trigger] self.signal_recording[k]).0
                    * self.signal_recording[k].1 <= i32::MAX && self.signal_recording[k].0 <= i32::MAX,
        ensures
            r.len() == self.signal_recording.len(),
            forall|k: int|
                0 <= k < r.len() ==> #[trigger] r[k] == self.signal_recording[k].0 * self.signal_recording[k].1,
    {
        let mut r: Vec<i32> = Vec::new();
        let mut k: usize = 0;
        while k < self.signal_recording.len()
            invariant
                k <= self.signal_recording.len(),
                r.len() == k,
                forall|j: int|
                    0 <= j < self.signal_recording.len() ==> i32::MIN <= (#[trigger] self.signal_recording[j]).0
                        * self.signal_recording[j].1 <= i32::MAX && self.signal_recording[j].0 <= i32::MAX,
                forall|j: int|
                    0 <= j < k ==> #[trigger] r[j] == self.signal_recording[j].0 * self.signal_recording[j].1,
            decreases self.signal_recording.len() - k,
        {
            let (cc, x) = self.signal_recording[k];
            r.push((cc as i32) * x);
            k += 1;
        }
        r
    }

    pub fn new() -> (r: CPU)
        ensures
            r.x == 1,
            r.current_cycle == 0,
            r.signal_recording@.len() == 0,
            r.crt_output@.len() == 0,
    {
        CPU { x: 1, current_cycle: 0, signal_recording: Vec::new(), crt_output: Vec::new() }
    }
}

/// The state after running the first `n` instructions of a program.
pub open spec fn run_state(program: Seq<Inst>, n: int) -> (int, int, Seq<(u32, i32)>, Seq<char>)
    decreases n,
{
    if n <= 0 {
        (1, 0, Seq::empty(), Seq::empty())
    } else {
        let (x, c, rec, scr) = run_state(program, n - 1);
        match program[n - 1] {
            Inst::NoOp => (x, c + 1, rec + samples_at(c + 1, x as i32), scr + screen_at(c + 1, x)),
            Inst::AddX(v) => (
                x + v,
                c + 2,
                rec + samples_at(c + 1, x as i32) + samples_at(c + 2, x as i32),
                scr + screen_at(c + 1, x) + screen_at(c + 2, x),
            ),
        }
    }
}

/// The program stays within the machine's limits: fewer than `2^30`
/// instructions, and the register within `i32` throughout.
pub open spec fn program_fits(program: Seq<Inst>) -> bool {
    &&& program.len() < 0x4000_0000
    &&& forall|n: int| 0 <= n <= program.len() ==> i32::MIN <= (#[trigger] run_state(program, n)).0 <= i32::MAX
}

proof fn lemma_cycles(program: Seq<Inst>, n: int)
    requires
        0 <= n,
    ensures
        run_state(program, n).1 <= 2 * n,
        run_state(program, n).1 >= 0,
    decreases n,
{
    if n > 0 {
        lemma_cycles(program, n - 1);
    }
}

impl CPU {
    /// Runs a whole program on a fresh CPU.
    pub fn run_program(program: &Vec<Inst>) -> (r: CPU)
        requires
            program_fits(program@),
        ensures
            ({
                let (x, c, rec, scr) = run_state(program@, program.len() as int);
                &&& r.x == x
                &&& r.current_cycle == c
                &&& r.signal_recording@ == rec
                &&& r.crt_output@ == scr
            }),
    {
        let mut cpu = CPU::new();
        let mut k: usize = 0;
        proof {
            assert(cpu.signal_recording@ =~= Seq::<(u32, i32)>::empty());
            assert(cpu.crt_output@ =~= Seq::<char>::empty());
        }
        while k < program.len()
            invariant
                program_fits(program@),
                k <= program.len(),
                ({
                    let (x, c, rec, scr) = run_state(program@, k as int);
                    &&& cpu.x == x
                    &&& cpu.current_cycle == c
                    &&& cpu.signal_recording@ == rec
                    &&& cpu.crt_output@ == scr
                }),
            decreases program.len() - k,
        {
            proof {
                lemma_cycles(program@, k as int);
                assert(i32::MIN <= run_state(program@, k as int + 1).0 <= i32::MAX);
            }
            cpu.run(&program[k]);
            k += 1;
        }
        cpu
    }
}

} // verus!
