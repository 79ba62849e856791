use vstd::prelude::*;

verus! {

/// Everything that can go wrong while a network is validated or a frame is decoded.
#[derive(Debug)]
pub enum DbcError {
    /// A signal carries a multiplexer indicator other than 0, 1 or 2.
    InvalidSignal { name: String },
    /// A signal names more than one extended multiplexer parent.
    MultipleExMuxParents { name: String },
    /// The signal at `index` of a message is invalid.
    InvalidSignalAt { index: usize, source: Box<DbcError> },
    /// A signal names, as its extended multiplexer switch, a signal that its message lacks.
    InvalidMuxSwitch { signal: String, switch: String },
    /// The extended multiplexer switches of a message loop; `path` is the loop found.
    MuxCycle { path: Vec<String> },
    /// A message without extended multiplexing has more than one multiplexer switch.
    MultipleMultiplexers,
    /// A message without extended multiplexing has multiplexed signals but no switch.
    MissingMultiplexer,
    /// The message at `index` of a network is invalid.
    InvalidMessageAt { index: usize, source: Box<DbcError> },
    /// No message of the network has the identifier of the frame.
    InvalidCanId,
    /// The frame is shorter than its message.
    PayloadTooShort { payload_len: usize, message_size: u64 },
}

/// The decimal digit `d` as a character.
pub open spec fn digit_char(d: nat) -> char {
    if d == 0 { '0' } else if d == 1 { '1' } else if d == 2 { '2' } else if d == 3 { '3' }
    else if d == 4 { '4' } else if d == 5 { '5' } else if d == 6 { '6' } else if d == 7 { '7' }
    else if d == 8 { '8' } else { '9' }
}

/// The decimal notation of `n`.
pub open spec fn decimal(n: nat) -> Seq<char>
    decreases n,
{
    if n < 10 {
        seq![digit_char(n)]
    } else {
        decimal(n / 10).push(digit_char(n % 10))
    }
}

/// The value of a decimal digit character, or -1 for any other character.
pub open spec fn digit_value(c: char) -> int {
    if c == '0' { 0 } else if c == '1' { 1 } else if c == '2' { 2 } else if c == '3' { 3 }
    else if c == '4' { 4 } else if c == '5' { 5 } else if c == '6' { 6 } else if c == '7' { 7 }
    else if c == '8' { 8 } else if c == '9' { 9 } else { -1 }
}

/// The number that a string of decimal digits reads as.
pub open spec fn read_decimal(s: Seq<char>) -> int
    decreases s.len(),
{
    if s.len() == 0 {
        0
    } else {
        read_decimal(s.drop_last()) * 10 + digit_value(s.last())
    }
}

/// Law: the decimal notation of a number is a non-empty string of decimal
/// digits, without a leading zero unless it is the number zero, that reads
/// back as the number.
pub proof fn lemma_decimal(n: nat)
    ensures
        decimal(n).len() >= 1,
        forall|i: int| 0 <= i < decimal(n).len() ==> 0 <= #[trigger] digit_value(decimal(n)[i]) <= 9,
        n > 0 ==> decimal(n)[0] != '0',
        read_decimal(decimal(n)) == n,
    decreases n,
{
    if n >= 10 {
        lemma_decimal(n / 10);
        let p = decimal(n / 10);
        assert(decimal(n) == p.push(digit_char(n % 10)));
        assert(decimal(n).drop_last() == p);
        assert(decimal(n)[0] == p[0]);
        assert forall|i: int| 0 <= i < decimal(n).len() implies 0 <= #[trigger] digit_value(decimal(n)[i]) <= 9 by {
            if i < p.len() {
                assert(decimal(n)[i] == p[i]);
            }
        }
        assert(digit_value(digit_char(n % 10)) == n % 10);
        assert(read_decimal(decimal(n)) == read_decimal(p) * 10 + n % 10);
        assert(read_decimal(p) == n / 10);
        assert((n / 10) * 10 + n % 10 == n);
    } else {
        assert(decimal(n).drop_last() =~= Seq::<char>::empty());
        assert(read_decimal(decimal(n).drop_last()) == 0);
        assert(decimal(n).last() == digit_char(n));
        assert(digit_value(digit_char(n)) == n);
    }
}

/// Names joined by " -> ".
pub open spec fn arrow_joined(names: Seq<Seq<char>>) -> Seq<char>
    decreases names.len(),
{
    if names.len() == 0 {
        seq![]
    } else if names.len() == 1 {
        names[0]
    } else {
        arrow_joined(names.drop_last()) + " -> "@ + names.last()
    }
}

/// The text of an error; a nested error follows its context after ": ".
pub open spec fn error_text(e: DbcError) -> Seq<char>
    decreases e,
{
    match e {
        DbcError::InvalidSignal { name } => "invalid signal("@ + name@ + ")"@,
        DbcError::MultipleExMuxParents { .. } => "signal has more than one extended multiplexer parents"@,
        DbcError::InvalidSignalAt { index, source } => "signal #"@ + decimal(index as nat)
            + " is invalid: "@ + error_text(*source),
        DbcError::InvalidMuxSwitch { signal, switch } => "Signal("@ + signal@
            + ") has an invalid multiplexer switch: \""@ + switch@ + "\""@,
        DbcError::MuxCycle { path } => "found cycle in extended multiplexing specification: "@
            + arrow_joined(path@.map_values(|s: String| s@)),
        DbcError::MultipleMultiplexers => "found multiple multiplexing signals without extended multiplexing"@,
        DbcError::MissingMultiplexer => "found multiplexed signals but no multiplexer signals"@,
        DbcError::InvalidMessageAt { index, source } => "message #"@ + decimal(index as nat)
            + " is invalid: "@ + error_text(*source),
        DbcError::InvalidCanId => "Invalid can id"@,
        DbcError::PayloadTooShort { payload_len, message_size } => "payload size ("@ + decimal(
            payload_len as nat,
        ) + ") is smaller than the message size ("@ + decimal(message_size as nat) + ")"@,
    }
}

fn digit_str(d: u64) -> (res: &'static str)
    requires
        d < 10,
    ensures
        res@ == seq![digit_char(d as nat)],
{
    proof {
        reveal_strlit("0");
        reveal_strlit("1");
        reveal_strlit("2");
        reveal_strlit("3");
        reveal_strlit("4");
        reveal_strlit("5");
        reveal_strlit("6");
        reveal_strlit("7");
        reveal_strlit("8");
        reveal_strlit("9");
    }
    if d == 0 { "0" } else if d == 1 { "1" } else if d == 2 { "2" } else if d == 3 { "3" }
    else if d == 4 { "4" } else if d == 5 { "5" } else if d == 6 { "6" } else if d == 7 { "7" }
    else if d == 8 { "8" } else { "9" }
}

/// Appends the decimal notation of `n`.
fn push_decimal(s: &mut String, n: u64)
    ensures
        final(s)@ == old(s)@ + decimal(n as nat),
    decreases n,
{
    if n >= 10 {
        push_decimal(s, n / 10);
    }
    s.append(digit_str(n % 10));
}

impl DbcError {
    /// The text of the error.
    pub fn message(&self) -> (res: String)
        ensures
            res@ == error_text(*self),
        decreases *self,
    {
        let mut s = String::new();
        match self {
            DbcError::InvalidSignal { name } => {
                s.append("invalid signal(");
                s.append(name.as_str());
                s.append(")");
            },
            DbcError::MultipleExMuxParents { .. } => {
                s.append("signal has more than one extended multiplexer parents");
            },
            DbcError::InvalidSignalAt { index, source } => {
                s.append("signal #");
                push_decimal(&mut s, *index as u64);
                s.append(" is invalid: ");
                let inner = source.message();
                s.append(inner.as_str());
            },
            DbcError::InvalidMuxSwitch { signal, switch } => {
                s.append("Signal(");
                s.append(signal.as_str());
                s.append(") has an invalid multiplexer switch: \"");
                s.append(switch.as_str());
                s.append("\"");
            },
            DbcError::MuxCycle { path } => {
                s.append("found cycle in extended multiplexing specification: ");
                let ghost start = s@;
                let n = path.len();
                for i in 0..n
                    invariant
                        n == path@.len(),
                        s@ == start + arrow_joined(path@.take(i as int).map_values(|x: String| x@)),
                {
                    if i > 0 {
                        s.append(" -> ");
                    }
                    s.append(path[i].as_str());
                    proof {
                        let before = path@.take(i as int).map_values(|x: String| x@);
                        let after = path@.take(i + 1).map_values(|x: String| x@);
                        assert(after.drop_last() == before);
                        if i == 0 {
                            assert(after =~= seq![path@[0]@]);
                        }
                    }
                }
                assert(path@.take(n as int) == path@);
            },
            DbcError::MultipleMultiplexers => {
                s.append("found multiple multiplexing signals without extended multiplexing");
            },
            DbcError::MissingMultiplexer => {
                s.append("found multiplexed signals but no multiplexer signals");
            },
            DbcError::InvalidMessageAt { index, source } => {
                s.append("message #");
                push_decimal(&mut s, *index as u64);
                s.append(" is invalid: ");
                let inner = source.message();
                s.append(inner.as_str());
            },
            DbcError::InvalidCanId => {
                s.append("Invalid can id");
            },
            DbcError::PayloadTooShort { payload_len, message_size } => {
                s.append("payload size (");
                push_decimal(&mut s, *payload_len as u64);
                s.append(") is smaller than the message size (");
                push_decimal(&mut s, *message_size);
                s.append(")");
            },
        }
        s
    }
}

} // verus!
