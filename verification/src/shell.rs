use vstd::prelude::*;

verus! {

/// Bytes a command line holds at most.
pub const LINE_CAPACITY: usize = 70;

/// Times the shell is started again at most.
pub const SHELL_STARTS: u32 = 10;

/// What a command line asks of the shell.
#[derive(Debug, Clone, PartialEq, Eq)]
pub enum ShellAction {
    /// An empty line: nothing.
    Nothing,
    /// Print the help text.
    Help,
    /// Leave the shell.
    Exit,
    /// Print the message and a new line.
    Echo(Vec<u8>),
    /// Sleep this long, then report the command as unsupported.
    Sleep { seconds: u64, micros: u64 },
    /// Report the command as unsupported.
    Unsupported,
}

/// What a typed byte does to the line being edited.
#[derive(Debug, Clone, PartialEq, Eq)]
pub enum EditAction {
    /// The line is complete: run it. The line is emptied.
    Submit(Vec<u8>),
    /// The last byte was taken back: erase it on the screen.
    Erase,
    /// The byte was added: show it.
    Echo(u8),
    /// Nothing changes.
    Ignore,
}

/// What the first process does when the shell exits with `code` after
/// `count` earlier clean exits.
#[derive(Debug, Clone, Copy, PartialEq, Eq)]
pub enum InitDecision {
    /// Start the shell again; `count` clean exits so far.
    Restart(u32),
    /// The shell failed with this code.
    Fail(u64),
    /// The shell exited too many times.
    TooManyExits,
}

/// The decimal value of `digits`.
pub open spec fn decimal_value(digits: Seq<u8>) -> nat
    decreases digits.len(),
{
    if digits.len() == 0 {
        0
    } else {
        decimal_value(digits.drop_last()) * 10 + (digits.last() - 48) as nat
    }
}

/// Every byte is an ASCII digit.
pub open spec fn all_digits(digits: Seq<u8>) -> bool {
    forall|i: int| 0 <= i < digits.len() ==> 48 <= #[trigger] digits[i] <= 57
}

/// The digits of a number written as `u64::from_str` reads it: an optional
/// `+` and at least one digit.
pub open spec fn number_digits(b: Seq<u8>) -> Seq<u8> {
    if b.len() > 0 && b[0] == 43 {
        b.skip(1)
    } else {
        b
    }
}

/// The number `b` spells in decimal, if it spells one that fits in `u64`.
pub open spec fn spec_parse_u64(b: Seq<u8>) -> Option<u64> {
    let d = number_digits(b);
    if d.len() > 0 && all_digits(d) && decimal_value(d) <= u64::MAX {
        Some(decimal_value(d) as u64)
    } else {
        None
    }
}

/// A value grows by a digit at most tenfold plus nine.
proof fn lemma_decimal_monotone(d: Seq<u8>, i: int)
    requires
        all_digits(d),
        0 <= i <= d.len(),
    ensures
        decimal_value(d.take(i)) <= decimal_value(d),
    decreases d.len() - i,
{
    if i < d.len() {
        lemma_decimal_monotone(d, i + 1);
        assert(d.take(i + 1).drop_last() =~= d.take(i));
        assert(d.take(i + 1).last() == d[i]);
    } else {
        assert(d.take(i) =~= d);
    }
}

/// The number the bytes spell in decimal, read as `u64::from_str` reads it.
pub fn parse_u64(b: &[u8]) -> (r: Option<u64>)
    ensures
        r == spec_parse_u64(b@),
{
    let start: usize = if b.len() > 0 && b[0] == 43u8 {
        1
    } else {
        0
    };
    let ghost d = number_digits(b@);
    proof {
        assert(d =~= b@.skip(start as int));
    }
    if start >= b.len() {
        return None;
    }
    let mut value: u64 = 0;
    let mut i: usize = start;
    while i < b.len()
        invariant
            start <= i <= b@.len(),
            d == b@.skip(start as int),
            d == number_digits(b@),
            d.len() > 0,
            all_digits(d.take(i - start)),
            value as nat == decimal_value(d.take(i - start)),
        decreases b@.len() - i,
    {
        let c = b[i];
        proof {
            assert(d[i - start] == c);
        }
        if c < 48u8 || c > 57u8 {
            proof {
                assert(!all_digits(d));
            }
            return None;
        }
        proof {
            let t = d.take(i - start + 1);
            assert(t.drop_last() =~= d.take(i - start));
            assert(t.last() == c);
            assert(all_digits(t));
        }
        match value.checked_mul(10) {
            Some(v) => match v.checked_add((c - 48u8) as u64) {
                Some(w) => {
                    value = w;
                },
                None => {
                    proof {
                        let t = d.take(i - start + 1);
                        if all_digits(d) {
                            lemma_decimal_monotone(d, i - start + 1);
                        }
                    }
                    return None;
                },
            },
            None => {
                proof {
                    let t = d.take(i - start + 1);
                    if all_digits(d) {
                        lemma_decimal_monotone(d, i - start + 1);
                    }
                }
                return None;
            },
        }
        i = i + 1;
    }
    proof {
        assert(d.take(i - start) =~= d);
    }
    Some(value)
}

/// `cmd` begins with `prefix`.
pub open spec fn has_prefix(cmd: Seq<u8>, prefix: Seq<u8>) -> bool {
    prefix.len() <= cmd.len() && cmd.take(prefix.len() as int) == prefix
}

/// Which command the line `cmd` is: 0 an empty line, 1 `help`, 2 `exit`,
/// 3 `echo <msg>`, 4 `sleep <ms>` with a number, 5 anything else.
pub open spec fn command_case(cmd: Seq<u8>) -> nat {
    if cmd.len() == 0 {
        0
    } else if cmd == seq![104u8, 101, 108, 112] {
        1
    } else if cmd == seq![101u8, 120, 105, 116] {
        2
    } else if has_prefix(cmd, seq![101u8, 99, 104, 111, 32]) {
        3
    } else if has_prefix(cmd, seq![115u8, 108, 101, 101, 112, 32]) && spec_parse_u64(cmd.skip(6)) is Some {
        4
    } else {
        5
    }
}

/// `cmd` equals the bytes `lit`.
fn bytes_eq(cmd: &[u8], lit: &[u8]) -> (r: bool)
    ensures
        r == (cmd@ == lit@),
{
    if cmd.len() != lit.len() {
        return false;
    }
    let mut i: usize = 0;
    while i < cmd.len()
        invariant
            cmd@.len() == lit@.len(),
            i <= cmd@.len(),
            forall|j: int| 0 <= j < i ==> cmd@[j] == lit@[j],
        decreases cmd@.len() - i,
    {
        if cmd[i] != lit[i] {
            return false;
        }
        i = i + 1;
    }
    proof {
        assert(cmd@ =~= lit@);
    }
    true
}

/// `cmd` begins with the bytes `lit`.
fn starts_with(cmd: &[u8], lit: &[u8]) -> (r: bool)
    ensures
        r == has_prefix(cmd@, lit@),
{
    if lit.len() > cmd.len() {
        return false;
    }
    let mut i: usize = 0;
    while i < lit.len()
        invariant
            lit@.len() <= cmd@.len(),
            i <= lit@.len(),
            forall|j: int| 0 <= j < i ==> cmd@[j] == lit@[j],
        decreases lit@.len() - i,
    {
        if cmd[i] != lit[i] {
            return false;
        }
        i = i + 1;
    }
    proof {
        assert(cmd@.take(lit@.len() as int) =~= lit@);
    }
    true
}

/// The bytes of `b` from `start` on.
fn tail_of(b: &[u8], start: usize) -> (r: Vec<u8>)
    requires
        start <= b@.len(),
    ensures
        r@ == b@.skip(start as int),
{
    let mut r: Vec<u8> = Vec::new();
    let mut i: usize = start;
    while i < b.len()
        invariant
            start <= i <= b@.len(),
            r@ == b@.subrange(start as int, i as int),
        decreases b@.len() - i,
    {
        r.push(b[i]);
        i = i + 1;
        proof {
            assert(r@ =~= b@.subrange(start as int, i as int));
        }
    }
    proof {
        assert(r@ =~= b@.skip(start as int));
    }
    r
}

/// What the command line `cmd` asks of the shell.
pub fn process_command(cmd: &[u8]) -> (r: ShellAction)
    ensures
        command_case(cmd@) == 0 ==> r == ShellAction::Nothing,
        command_case(cmd@) == 1 ==> r == ShellAction::Help,
        command_case(cmd@) == 2 ==> r == ShellAction::Exit,
        command_case(cmd@) == 3 ==> (r matches ShellAction::Echo(msg) && msg@ == cmd@.skip(5)),
        command_case(cmd@) == 4 ==> ({
            let t = spec_parse_u64(cmd@.skip(6))->0;
            r == ShellAction::Sleep { seconds: t / 1000, micros: (t % 1000 * 1000) as u64 }
        }),
        command_case(cmd@) == 5 ==> r == ShellAction::Unsupported,
{
    if cmd.len() == 0 {
        return ShellAction::Nothing;
    }
    let help: [u8; 4] = [104, 101, 108, 112];
    let exit: [u8; 4] = [101, 120, 105, 116];
    let echo: [u8; 5] = [101, 99, 104, 111, 32];
    let sleep: [u8; 6] = [115, 108, 101, 101, 112, 32];
    proof {
        assert(help@ =~= seq![104u8, 101, 108, 112]);
        assert(exit@ =~= seq![101u8, 120, 105, 116]);
        assert(echo@ =~= seq![101u8, 99, 104, 111, 32]);
        assert(sleep@ =~= seq![115u8, 108, 101, 101, 112, 32]);
    }
    if bytes_eq(cmd, help.as_slice()) {
        return ShellAction::Help;
    }
    if bytes_eq(cmd, exit.as_slice()) {
        return ShellAction::Exit;
    }
    if starts_with(cmd, echo.as_slice()) {
        return ShellAction::Echo(tail_of(cmd, 5));
    }
    if starts_with(cmd, sleep.as_slice()) {
        let time = tail_of(cmd, 6);
        match parse_u64(time.as_slice()) {
            Some(t) => {
                return ShellAction::Sleep { seconds: t / 1000, micros: t % 1000 * 1000 };
            },
            None => {},
        }
    }
    ShellAction::Unsupported
}

/// The line being typed.
pub struct LineEditor {
    buffer: Vec<u8>,
}

impl LineEditor {
    /// The bytes typed so far.
    pub closed spec fn view(&self) -> Seq<u8> {
        self.buffer@
    }

    /// An empty line.
    pub fn new() -> (e: Self)
        ensures
            e@ == Seq::<u8>::empty(),
    {
        LineEditor { buffer: Vec::new() }
    }

    /// Takes one typed byte: a new line submits the line, a backspace takes
    /// the last byte back, any other byte is added while the line has room.
    pub fn feed(&mut self, ch: u8) -> (r: EditAction)
        requires
            old(self)@.len() <= LINE_CAPACITY,
        ensures
            final(self)@.len() <= LINE_CAPACITY,
            ch == 10 ==> r is Submit && final(self)@ == Seq::<u8>::empty(),
            r matches EditAction::Submit(line) ==> line@ == old(self)@,
            ch == 8 ==> if old(self)@.len() > 0 {
                r == EditAction::Erase && final(self)@ == old(self)@.drop_last()
            } else {
                r == EditAction::Ignore && final(self)@ == old(self)@
            },
            ch != 10 && ch != 8 ==> if old(self)@.len() < LINE_CAPACITY {
                r == EditAction::Echo(ch) && final(self)@ == old(self)@.push(ch)
            } else {
                r == EditAction::Ignore && final(self)@ == old(self)@
            },
    {
        if ch == 10 {
            let mut line: Vec<u8> = Vec::new();
            core::mem::swap(&mut line, &mut self.buffer);
            return EditAction::Submit(line);
        }
        if ch == 8 {
            if self.buffer.len() > 0 {
                self.buffer.pop();
                return EditAction::Erase;
            }
            return EditAction::Ignore;
        }
        if self.buffer.len() < LINE_CAPACITY {
            self.buffer.push(ch);
            return EditAction::Echo(ch);
        }
        EditAction::Ignore
    }
}

/// What to do after the shell exited with `code`, `count` clean exits
/// before: a failure ends everything, and the shell is started at most
/// `SHELL_STARTS` times.
pub fn shell_exited(count: u32, code: u64) -> (r: InitDecision)
    requires
        count < SHELL_STARTS,
    ensures
        code != 0 ==> r == InitDecision::Fail(code),
        code == 0 && count + 1 < SHELL_STARTS ==> r == InitDecision::Restart((count + 1) as u32),
        code == 0 && count + 1 >= SHELL_STARTS ==> r == InitDecision::TooManyExits,
{
    if code != 0 {
        return InitDecision::Fail(code);
    }
    if count + 1 < SHELL_STARTS {
        InitDecision::Restart(count + 1)
    } else {
        InitDecision::TooManyExits
    }
}

} // verus!
