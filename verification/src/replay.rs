use vstd::prelude::*;

use crate::events::BurnerStatus;
use crate::events::EventStatus;
use crate::events::LineState;
use crate::events::SessionRecord;
use crate::events::initial_status;
use crate::events::reduce;

verus! {

/// One token of a replay script: the level an edge transitions to, and the
/// delay in milliseconds that elapses before that edge is observed. A
/// script's numbers thus read as the gaps between successive edges.
#[derive(Clone, Copy, Debug, PartialEq, Eq, Structural)]
pub struct Command {
    pub level: LineState,
    pub delay_ms: u64,
}

/// Whether a byte is an ASCII decimal digit.
pub open spec fn is_digit_byte(b: u8) -> bool {
    48 <= b && b <= 57  // ASCII '0' through '9'
}

/// Whether every byte of the sequence is an ASCII decimal digit.
pub open spec fn all_digits(s: Seq<u8>) -> bool {
    forall|i: int| 0 <= i < s.len() ==> is_digit_byte(s[i])
}

/// The number a sequence of ASCII digits denotes in decimal.
pub open spec fn dec_val(s: Seq<u8>) -> int
    decreases s.len(),
{
    if s.len() == 0 {
        0
    } else {
        dec_val(s.drop_last()) * 10 + (s.last() - 48)
    }
}

/// The delay field's grammar: one or more ASCII digits denoting a number
/// that fits in a `u64`; anything else is rejected.
pub open spec fn parse_dec_u64(s: Seq<u8>) -> Option<u64> {
    if s.len() > 0 && all_digits(s) && dec_val(s) <= u64::MAX {
        Some(dec_val(s) as u64)
    } else {
        None
    }
}

/// The index of the first occurrence of `b` in `s`, if any.
pub open spec fn find_byte(s: Seq<u8>, b: u8) -> Option<int>
    decreases s.len(),
{
    if s.len() == 0 {
        None
    } else if s[0] == b {
        Some(0)
    } else {
        match find_byte(s.skip(1), b) {
            Some(i) => Some(i + 1),
            None => None,
        }
    }
}

proof fn lemma_find_byte_props(s: Seq<u8>, b: u8)
    ensures
        (match find_byte(s, b) {
            Some(i) => 0 <= i < s.len() && s[i] == b && (forall|j: int| 0 <= j < i ==> s[j] != b),
            None => forall|j: int| 0 <= j < s.len() ==> s[j] != b,
        }),
    decreases s.len(),
{
    if s.len() == 0 {
    } else if s[0] == b {
    } else {
        lemma_find_byte_props(s.skip(1), b);
        match find_byte(s.skip(1), b) {
            Some(i) => {
                assert(s[i + 1] == s.skip(1)[i]);
                assert forall|j: int| 0 <= j < i + 1 implies s[j] != b by {
                    if j > 0 {
                        assert(s[j] == s.skip(1)[j - 1]);
                    }
                }
            },
            None => {
                assert forall|j: int| 0 <= j < s.len() implies s[j] != b by {
                    if j > 0 {
                        assert(s[j] == s.skip(1)[j - 1]);
                    }
                }
            },
        }
    }
}

proof fn lemma_find_byte_witness(s: Seq<u8>, b: u8, i: int)
    requires
        0 <= i < s.len(),
        s[i] == b,
        forall|j: int| 0 <= j < i ==> s[j] != b,
    ensures
        find_byte(s, b) == Some(i),
    decreases s.len(),
{
    if i == 0 {
    } else {
        assert(s[0] != b);
        assert(s.skip(1)[i - 1] == s[i]);
        assert forall|j: int| 0 <= j < i - 1 implies s.skip(1)[j] != b by {
            assert(s.skip(1)[j] == s[j + 1]);
        }
        lemma_find_byte_witness(s.skip(1), b, i - 1);
    }
}

proof fn lemma_find_byte_absent(s: Seq<u8>, b: u8)
    requires
        forall|j: int| 0 <= j < s.len() ==> s[j] != b,
    ensures
        find_byte(s, b) is None,
    decreases s.len(),
{
    if s.len() == 0 {
    } else {
        assert forall|j: int| 0 <= j < s.skip(1).len() implies s.skip(1)[j] != b by {
            assert(s.skip(1)[j] == s[j + 1]);
        }
        lemma_find_byte_absent(s.skip(1), b);
    }
}

/// The level field's grammar: exactly the bytes of `HIGH` name the high
/// level; any other text, `LOW` included, names the low level.
pub open spec fn level_of(name: Seq<u8>) -> LineState {
    if name == seq![72u8, 73u8, 71u8, 72u8] {
        LineState::High
    } else {
        LineState::Low
    }
}

/// One token's grammar: a level name, a colon, and a decimal delay in
/// milliseconds. A token with no colon, or whose delay part is not a
/// `u64`-sized run of digits, is rejected.
pub open spec fn parse_token(token: Seq<u8>) -> Option<Command> {
    match find_byte(token, 58) {
        Some(i) => match parse_dec_u64(token.skip(i + 1)) {
            Some(ms) => Some(Command { level: level_of(token.take(i)), delay_ms: ms }),
            None => None,
        },
        None => None,
    }
}

/// A replay script's grammar: one or more tokens separated by `-`. The
/// whole script is rejected as soon as any token is; an empty script is a
/// single empty token, which is rejected.
pub open spec fn parse_commands_spec(script: Seq<u8>) -> Option<Seq<Command>>
    decreases script.len(),
    via parse_commands_spec_decreases
{
    match find_byte(script, 45) {
        None => match parse_token(script) {
            Some(command) => Some(seq![command]),
            None => None,
        },
        Some(i) => match (parse_token(script.take(i)), parse_commands_spec(script.skip(i + 1))) {
            (Some(command), Some(rest)) => Some(seq![command] + rest),
            _ => None,
        },
    }
}

#[via_fn]
proof fn parse_commands_spec_decreases(script: Seq<u8>) {
    lemma_find_byte_props(script, 45);
}

proof fn lemma_dec_val_nonneg(s: Seq<u8>)
    requires
        all_digits(s),
    ensures
        dec_val(s) >= 0,
    decreases s.len(),
{
    if s.len() == 0 {
    } else {
        assert forall|m: int| 0 <= m < s.drop_last().len() implies is_digit_byte(
            s.drop_last()[m],
        ) by {
            assert(s.drop_last()[m] == s[m]);
        }
        lemma_dec_val_nonneg(s.drop_last());
    }
}

/// Reading more digits never shrinks the value a digit run denotes.
proof fn lemma_dec_val_prefix_le(s: Seq<u8>, k: int)
    requires
        all_digits(s),
        0 <= k <= s.len(),
    ensures
        dec_val(s.take(k)) <= dec_val(s),
    decreases s.len() - k,
{
    if k == s.len() {
        assert(s.take(k) =~= s);
    } else {
        assert(s.take(k + 1).drop_last() =~= s.take(k));
        assert(s.take(k + 1).last() == s[k]);
        assert forall|m: int| 0 <= m < s.take(k).len() implies is_digit_byte(s.take(k)[m]) by {
            assert(s.take(k)[m] == s[m]);
        }
        lemma_dec_val_nonneg(s.take(k));
        assert(dec_val(s.take(k + 1)) == dec_val(s.take(k)) * 10 + (s[k] - 48));
        lemma_dec_val_prefix_le(s, k + 1);
    }
}

/// Locate the first occurrence of `b` within `s[from..to]`, if any.
fn find_byte_in_range(s: &[u8], b: u8, from: usize, to: usize) -> (r: Option<usize>)
    requires
        from <= to,
        to <= s@.len(),
    ensures
        (match r {
            Some(j) => from <= j < to && s@[j as int] == b && find_byte(
                s@.subrange(from as int, to as int),
                b,
            ) == Some(j - from),
            None => find_byte(s@.subrange(from as int, to as int), b) is None,
        }),
{
    let mut j: usize = from;
    while j < to
        invariant
            from <= j <= to,
            to <= s@.len(),
            forall|k: int| from <= k < j ==> s@[k] != b,
        decreases to - j,
    {
        if s[j] == b {
            proof {
                let sub = s@.subrange(from as int, to as int);
                assert(sub[j - from] == s@[j as int]);
                assert forall|m: int| 0 <= m < j - from implies sub[m] != b by {
                    assert(sub[m] == s@[from + m]);
                }
                lemma_find_byte_witness(sub, b, j - from);
            }
            return Some(j);
        }
        j = j + 1;
    }
    proof {
        let sub = s@.subrange(from as int, to as int);
        assert forall|m: int| 0 <= m < sub.len() implies sub[m] != b by {
            assert(sub[m] == s@[from + m]);
        }
        lemma_find_byte_absent(sub, b);
    }
    None
}

/// Classify the level name in `s[from..to]`.
fn level_in_range(s: &[u8], from: usize, to: usize) -> (l: LineState)
    requires
        from <= to,
        to <= s@.len(),
    ensures
        l == level_of(s@.subrange(from as int, to as int)),
{
    let ghost sub = s@.subrange(from as int, to as int);
    let ghost high = seq![72u8, 73u8, 71u8, 72u8];
    if to - from == 4 && s[from] == 72 && s[from + 1] == 73 && s[from + 2] == 71 && s[from + 3]
        == 72 {
        proof {
            assert(sub =~= high);
        }
        LineState::High
    } else {
        proof {
            assert(high.len() == 4);
            assert(high[0] == 72u8 && high[1] == 73u8 && high[2] == 71u8 && high[3] == 72u8);
            if sub.len() == 4 {
                assert(sub[0] == s@[from as int]);
                assert(sub[1] == s@[from as int + 1]);
                assert(sub[2] == s@[from as int + 2]);
                assert(sub[3] == s@[from as int + 3]);
            }
            assert(sub != high);
        }
        LineState::Low
    }
}

/// Parse the decimal delay in `s[from..to]`; reject an empty run, a
/// non-digit, or a value that overflows a `u64`.
fn parse_u64_in_range(s: &[u8], from: usize, to: usize) -> (r: Option<u64>)
    requires
        from <= to,
        to <= s@.len(),
    ensures
        (match r {
            Some(v) => parse_dec_u64(s@.subrange(from as int, to as int)) == Some(v),
            None => parse_dec_u64(s@.subrange(from as int, to as int)) is None,
        }),
{
    if from == to {
        return None;
    }
    let mut acc: u64 = 0;
    let mut i: usize = from;
    proof {
        assert(s@.subrange(from as int, from as int) =~= Seq::<u8>::empty());
    }
    while i < to
        invariant
            from <= i <= to,
            to <= s@.len(),
            all_digits(s@.subrange(from as int, i as int)),
            acc as int == dec_val(s@.subrange(from as int, i as int)),
        decreases to - i,
    {
        let ghost pre = s@.subrange(from as int, i as int);
        let ghost next = s@.subrange(from as int, i as int + 1);
        let b = s[i];
        if b < 48 || b > 57 {
            proof {
                let whole = s@.subrange(from as int, to as int);
                assert(whole[i - from] == s@[i as int]);
                assert(!is_digit_byte(whole[i - from]));
                assert(!all_digits(whole));
            }
            return None;
        }
        let d: u64 = (b - 48) as u64;
        proof {
            assert(next.drop_last() =~= pre);
            assert(next.last() == s@[i as int]);
            assert(dec_val(next) == acc as int * 10 + d);
        }
        // Reject as soon as one more digit would push the value past
        // u64::MAX = 18446744073709551615.
        if acc > 1_844_674_407_370_955_161u64 || (acc == 1_844_674_407_370_955_161u64 && d > 5) {
            proof {
                let whole = s@.subrange(from as int, to as int);
                assert(dec_val(next) > u64::MAX as int);
                if all_digits(whole) {
                    assert(whole.take(i as int + 1 - from) =~= next);
                    lemma_dec_val_prefix_le(whole, i as int + 1 - from);
                    assert(dec_val(whole) > u64::MAX as int);
                }
            }
            return None;
        }
        acc = acc * 10 + d;
        i = i + 1;
        proof {
            assert forall|m: int| 0 <= m < next.len() implies is_digit_byte(next[m]) by {
                if m < next.len() - 1 {
                    assert(next[m] == pre[m]);
                } else {
                    assert(next[m] == s@[i as int - 1]);
                }
            }
        }
    }
    Some(acc)
}

/// Parse a whole replay script, `LEVEL:ms` tokens separated by `-`, into
/// commands in script order. Returns `None` exactly when the script does
/// not fit the grammar: some token lacks a colon, or some delay is empty,
/// has a non-digit, or overflows a `u64`.
pub fn parse_commands(script: &[u8]) -> (r: Option<Vec<Command>>)
    ensures
        (match (r, parse_commands_spec(script@)) {
            (Some(v), Some(commands)) => v@ == commands,
            (None, None) => true,
            _ => false,
        }),
{
    let mut out: Vec<Command> = Vec::new();
    let mut pos: usize = 0;
    proof {
        assert(script@.subrange(0, script@.len() as int) =~= script@);
        let sp = parse_commands_spec(script@);
        if sp is Some {
            assert(out@ + sp.unwrap() =~= sp.unwrap());
        }
    }
    loop
        invariant
            pos <= script@.len(),
            parse_commands_spec(script@) == (match parse_commands_spec(
                script@.subrange(pos as int, script@.len() as int),
            ) {
                Some(rest) => Some(out@ + rest),
                None => None::<Seq<Command>>,
            }),
        decreases script@.len() - pos,
    {
        let ghost suffix = script@.subrange(pos as int, script@.len() as int);
        let dash = find_byte_in_range(script, 45, pos, script.len());
        let token_end = match dash {
            Some(j) => j,
            None => script.len(),
        };
        let ghost token = script@.subrange(pos as int, token_end as int);
        proof {
            match dash {
                Some(j) => {
                    assert(suffix.take(j - pos) =~= token);
                },
                None => {
                    assert(suffix =~= token);
                },
            }
        }
        let colon = find_byte_in_range(script, 58, pos, token_end);
        match colon {
            None => {
                proof {
                    assert(parse_token(token) is None);
                    assert(parse_commands_spec(suffix) is None);
                }
                return None;
            },
            Some(c) => {
                proof {
                    assert(token.take(c - pos) =~= script@.subrange(pos as int, c as int));
                    assert(token.skip(c - pos + 1) =~= script@.subrange(
                        c as int + 1,
                        token_end as int,
                    ));
                }
                let level = level_in_range(script, pos, c);
                match parse_u64_in_range(script, c + 1, token_end) {
                    None => {
                        proof {
                            assert(parse_token(token) is None);
                            assert(parse_commands_spec(suffix) is None);
                        }
                        return None;
                    },
                    Some(ms) => {
                        let command = Command { level, delay_ms: ms };
                        proof {
                            assert(parse_token(token) == Some(command));
                        }
                        let ghost old_out = out@;
                        out.push(command);
                        match dash {
                            None => {
                                proof {
                                    assert(parse_commands_spec(suffix) == Some(seq![command]));
                                    assert(old_out + seq![command] =~= out@);
                                }
                                return Some(out);
                            },
                            Some(j) => {
                                proof {
                                    let tail = script@.subrange(j + 1, script@.len() as int);
                                    assert(suffix.skip(j - pos + 1) =~= tail);
                                    let sp = parse_commands_spec(tail);
                                    if sp is Some {
                                        assert(old_out + (seq![command] + sp.unwrap()) =~= out@
                                            + sp.unwrap());
                                    }
                                }
                                pos = j + 1;
                            },
                        }
                    },
                }
            },
        }
    }
}

/// The records a deterministic replay emits: starting from `status` at
/// instant `now` (nanoseconds), each command first advances the clock by
/// its delay, then delivers its edge at the advanced instant to one
/// reduction step; emitted records are collected in order.
pub open spec fn replay_records(
    status: BurnerStatus,
    commands: Seq<Command>,
    now: u64,
    threshold_nanos: u64,
) -> Seq<SessionRecord>
    decreases commands.len(),
{
    if commands.len() == 0 {
        Seq::empty()
    } else {
        let at = (now + commands[0].delay_ms * 1_000_000) as u64;
        let event = EventStatus { timestamp: at, pin_state: commands[0].level };
        let step = reduce(status, event, threshold_nanos);
        let rest = replay_records(step.0, commands.skip(1), at, threshold_nanos);
        match step.1 {
            Some(record) => seq![record] + rest,
            None => rest,
        }
    }
}

/// Whether every instant the replay clock reaches fits in a `u64`.
pub open spec fn replay_fits(commands: Seq<Command>, now: u64) -> bool
    decreases commands.len(),
{
    if commands.len() == 0 {
        true
    } else {
        now + commands[0].delay_ms * 1_000_000 <= u64::MAX
            && replay_fits(commands.skip(1), (now + commands[0].delay_ms * 1_000_000) as u64)
    }
}

/// Run a parsed replay script deterministically, starting from the sentinel
/// status anchored at `start_nanos`, checking as it goes that every instant
/// the replay clock reaches fits in a `u64`. Returns the records the
/// reducer emits, in emission order, and `None` exactly when the clock
/// would overflow.
pub fn try_replay(commands: &Vec<Command>, start_nanos: u64, threshold_nanos: u64) -> (r: Option<
    Vec<SessionRecord>,
>)
    ensures
        (match r {
            Some(records) => replay_fits(commands@, start_nanos) && records@ == replay_records(
                initial_status(start_nanos),
                commands@,
                start_nanos,
                threshold_nanos,
            ),
            None => !replay_fits(commands@, start_nanos),
        }),
{
    let mut records: Vec<SessionRecord> = Vec::new();
    let mut status = crate::events::make_initial_status(start_nanos);
    let mut now: u64 = start_nanos;
    let mut i: usize = 0;
    proof {
        assert(commands@.skip(0) =~= commands@);
        assert(records@ + replay_records(status, commands@, now, threshold_nanos)
            =~= replay_records(status, commands@, now, threshold_nanos));
    }
    while i < commands.len()
        invariant
            i <= commands@.len(),
            replay_fits(commands@, start_nanos) <==> replay_fits(commands@.skip(i as int), now),
            replay_records(initial_status(start_nanos), commands@, start_nanos, threshold_nanos)
                == records@ + replay_records(
                status,
                commands@.skip(i as int),
                now,
                threshold_nanos,
            ),
        decreases commands@.len() - i,
    {
        proof {
            assert(commands@.skip(i as int)[0] == commands@[i as int]);
            assert(commands@.skip(i as int).skip(1) =~= commands@.skip(i as int + 1));
        }
        let command = commands[i];
        let at = match command.delay_ms.checked_mul(1_000_000) {
            Some(gap) => match now.checked_add(gap) {
                Some(at) => at,
                None => {
                    return None;
                },
            },
            None => {
                return None;
            },
        };
        let event = EventStatus { timestamp: at, pin_state: command.level };
        let step = crate::events::process_event_with(status, &event, threshold_nanos);
        let ghost old_records = records@;
        status = step.0;
        match step.1 {
            Some(record) => {
                records.push(record);
                proof {
                    assert(records@ =~= old_records + seq![record]);
                    assert(old_records + (seq![record] + replay_records(
                        status,
                        commands@.skip(i as int + 1),
                        at,
                        threshold_nanos,
                    )) =~= records@ + replay_records(
                        status,
                        commands@.skip(i as int + 1),
                        at,
                        threshold_nanos,
                    ));
                }
            },
            None => {},
        }
        now = at;
        i = i + 1;
    }
    proof {
        assert(commands@.skip(commands@.len() as int) =~= Seq::<Command>::empty());
        assert(records@ + Seq::<SessionRecord>::empty() =~= records@);
    }
    Some(records)
}

/// Run a parsed replay script whose clock is known not to overflow, and
/// return every record the reducer emits, in emission order.
pub fn replay(commands: &Vec<Command>, start_nanos: u64, threshold_nanos: u64) -> (records: Vec<
    SessionRecord,
>)
    requires
        replay_fits(commands@, start_nanos),
    ensures
        records@ == replay_records(
            initial_status(start_nanos),
            commands@,
            start_nanos,
            threshold_nanos,
        ),
{
    match try_replay(commands, start_nanos, threshold_nanos) {
        Some(records) => records,
        None => vstd::pervasive::unreached(),
    }
}

/// Law: a deterministic replay is a function of its script and its start
/// instant alone. Two runs over identical commands with identical
/// timestamps emit identical records, and those records render to
/// identical persisted timestamp columns — only the audit insertion-time
/// column, which the sink stamps at write time, may differ.
pub proof fn lemma_replay_deterministic(
    commands: Seq<Command>,
    start_nanos: u64,
    threshold_nanos: u64,
    first: Seq<SessionRecord>,
    second: Seq<SessionRecord>,
)
    requires
        first == replay_records(
            initial_status(start_nanos),
            commands,
            start_nanos,
            threshold_nanos,
        ),
        second == replay_records(
            initial_status(start_nanos),
            commands,
            start_nanos,
            threshold_nanos,
        ),
    ensures
        first == second,
        forall|i: int|
            0 <= i < first.len() ==> crate::record::row_of(first[i]) == crate::record::row_of(
                second[i],
            ),
{
}

} // verus!
