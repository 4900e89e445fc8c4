use vstd::prelude::*;

verus! {

/// The index of the first tab byte of `s`, or `s.len()` when `s` holds
/// none.
pub open spec fn first_tab(s: Seq<u8>) -> int
    decreases s.len(),
{
    if s.len() == 0 {
        0
    } else if s[0] == 9 {
        0
    } else {
        1 + first_tab(s.drop_first())
    }
}

pub proof fn lemma_first_tab(s: Seq<u8>)
    ensures
        0 <= first_tab(s) <= s.len(),
        first_tab(s) < s.len() ==> s[first_tab(s)] == 9,
        forall|j: int| 0 <= j < first_tab(s) ==> s[j] != 9,
    decreases s.len(),
{
    if s.len() > 0 && s[0] != 9 {
        lemma_first_tab(s.drop_first());
        assert(forall|j: int| 1 <= j < s.len() ==> s[j] == s.drop_first()[j - 1]);
    }
}

/// `first_tab` is pinned by its defining properties.
pub proof fn lemma_first_tab_at(s: Seq<u8>, i: int)
    requires
        0 <= i <= s.len(),
        forall|j: int| 0 <= j < i ==> s[j] != 9,
        i < s.len() ==> s[i] == 9,
    ensures
        first_tab(s) == i,
    decreases s.len(),
{
    if s.len() > 0 && i > 0 {
        assert(s[0] != 9);
        let rest = s.drop_first();
        assert(forall|j: int| 0 <= j < i - 1 ==> rest[j] == s[j + 1] && rest[j] != 9);
        assert(i - 1 < rest.len() ==> rest[i - 1] == s[i]);
        lemma_first_tab_at(rest, i - 1);
    }
}

/// The fields of one command line: `s` split on tab bytes. A line
/// without a tab is one field; every tab separates two fields.
pub open spec fn split_tabs(s: Seq<u8>) -> Seq<Seq<u8>>
    decreases s.len(),
{
    let i = first_tab(s);
    if 0 <= i < s.len() {
        seq![s.take(i)] + split_tabs(s.skip(i + 1))
    } else {
        seq![s]
    }
}

/// Split a line on tab bytes.
pub fn split_fields(line: &Vec<u8>) -> (fields: Vec<Vec<u8>>)
    ensures
        fields@.map_values(|f: Vec<u8>| f@) == split_tabs(line@),
{
    let n = line.len();
    let mut fields: Vec<Vec<u8>> = Vec::new();
    let mut start: usize = 0;
    let mut i: usize = 0;
    proof {
        assert(line@.skip(0) =~= line@);
        assert(fields@.map_values(|f: Vec<u8>| f@) =~= Seq::<Seq<u8>>::empty());
        assert(Seq::<Seq<u8>>::empty() + split_tabs(line@) =~= split_tabs(line@));
    }
    while i < n
        invariant
            0 <= start <= i <= n,
            n == line@.len(),
            split_tabs(line@) == fields@.map_values(|f: Vec<u8>| f@) + split_tabs(
                line@.skip(start as int),
            ),
            forall|j: int| start <= j < i ==> line@[j] != 9,
        decreases n - i,
    {
        if line[i] == 9 {
            let mut field: Vec<u8> = Vec::new();
            let mut j: usize = start;
            while j < i
                invariant
                    start <= j <= i <= n,
                    n == line@.len(),
                    field@ == line@.subrange(start as int, j as int),
                decreases i - j,
            {
                field.push(line[j]);
                proof {
                    assert(line@.subrange(start as int, j as int + 1) =~= line@.subrange(
                        start as int,
                        j as int,
                    ).push(line@[j as int]));
                }
                j += 1;
            }
            proof {
                let rest = line@.skip(start as int);
                assert(forall|t: int| 0 <= t < i - start ==> rest[t] == line@[t + start]);
                lemma_first_tab_at(rest, i - start);
                assert(rest.take(i - start) =~= field@);
                assert(rest.skip(i - start + 1) =~= line@.skip(i as int + 1));
                assert(split_tabs(rest) == seq![field@] + split_tabs(line@.skip(i as int + 1)));
                assert((fields@.push(field)).map_values(|f: Vec<u8>| f@) =~= fields@.map_values(
                    |f: Vec<u8>| f@,
                ).push(field@));
                assert(fields@.map_values(|f: Vec<u8>| f@).push(field@) + split_tabs(
                    line@.skip(i as int + 1),
                ) =~= fields@.map_values(|f: Vec<u8>| f@) + (seq![field@] + split_tabs(
                    line@.skip(i as int + 1),
                )));
            }
            fields.push(field);
            start = i + 1;
        }
        i += 1;
    }
    let mut last_field: Vec<u8> = Vec::new();
    let mut j: usize = start;
    while j < n
        invariant
            start <= j <= n,
            n == line@.len(),
            last_field@ == line@.subrange(start as int, j as int),
        decreases n - j,
    {
        last_field.push(line[j]);
        proof {
            assert(line@.subrange(start as int, j as int + 1) =~= line@.subrange(
                start as int,
                j as int,
            ).push(line@[j as int]));
        }
        j += 1;
    }
    proof {
        let rest = line@.skip(start as int);
        assert(forall|t: int| 0 <= t < rest.len() ==> rest[t] == line@[t + start]);
        lemma_first_tab_at(rest, rest.len() as int);
        assert(split_tabs(rest) == seq![rest]);
        assert(rest =~= last_field@);
        assert((fields@.push(last_field)).map_values(|f: Vec<u8>| f@) =~= fields@.map_values(
            |f: Vec<u8>| f@,
        ).push(last_field@));
        assert(fields@.map_values(|f: Vec<u8>| f@).push(rest) =~= fields@.map_values(
            |f: Vec<u8>| f@,
        ) + seq![rest]);
    }
    fields.push(last_field);
    fields
}

pub open spec fn count_token() -> Seq<u8> {
    seq![67, 79, 85, 78, 84]
}

pub open spec fn top_ten_token() -> Seq<u8> {
    seq![84, 79, 80, 95, 49, 48]
}

pub open spec fn top_hundred_token() -> Seq<u8> {
    seq![84, 79, 80, 95, 49, 48, 48]
}

pub open spec fn top_ten_count_token() -> Seq<u8> {
    seq![84, 79, 80, 95, 49, 48, 95, 67, 79, 85, 78, 84]
}

pub open spec fn top_n_docs_token() -> Seq<u8> {
    seq![84, 79, 80, 95, 78, 95, 68, 79, 67, 83]
}

pub open spec fn debug_top_ten_token() -> Seq<u8> {
    seq![68, 69, 66, 85, 71, 95, 84, 79, 80, 95, 49, 48]
}

/// The command a line's first field names.
#[derive(Clone, Copy, PartialEq, Eq, Structural, Debug)]
pub enum CommandKind {
    Count,
    TopTen,
    TopHundred,
    TopTenCount,
    TopNDocs,
    DebugTopTen,
    Unknown,
}

pub open spec fn spec_command_kind(f: Seq<u8>) -> CommandKind {
    if f == count_token() {
        CommandKind::Count
    } else if f == top_ten_token() {
        CommandKind::TopTen
    } else if f == top_hundred_token() {
        CommandKind::TopHundred
    } else if f == top_ten_count_token() {
        CommandKind::TopTenCount
    } else if f == top_n_docs_token() {
        CommandKind::TopNDocs
    } else if f == debug_top_ten_token() {
        CommandKind::DebugTopTen
    } else {
        CommandKind::Unknown
    }
}

fn eq_bytes(f: &Vec<u8>, t: &Vec<u8>) -> (r: bool)
    ensures
        r == (f@ == t@),
{
    if f.len() != t.len() {
        assert(f@ != t@);
        return false;
    }
    let n = f.len();
    let mut i: usize = 0;
    while i < n
        invariant
            0 <= i <= n,
            n == f@.len() == t@.len(),
            forall|j: int| 0 <= j < i ==> f@[j] == t@[j],
        decreases n - i,
    {
        if f[i] != t[i] {
            assert(f@[i as int] != t@[i as int]);
            return false;
        }
        i += 1;
    }
    proof {
        assert(f@ =~= t@);
    }
    true
}

/// Recognize the command named by a line's first field.
pub fn command_kind(f: &Vec<u8>) -> (k: CommandKind)
    ensures
        k == spec_command_kind(f@),
{
    let count: Vec<u8> = vec![67, 79, 85, 78, 84];
    let top_ten: Vec<u8> = vec![84, 79, 80, 95, 49, 48];
    let top_hundred: Vec<u8> = vec![84, 79, 80, 95, 49, 48, 48];
    let top_ten_count: Vec<u8> = vec![
        84, 79, 80, 95, 49, 48, 95, 67, 79, 85, 78, 84,
    ];
    let top_n_docs: Vec<u8> = vec![84, 79, 80, 95, 78, 95, 68, 79, 67, 83];
    let debug_top_ten: Vec<u8> = vec![
        68, 69, 66, 85, 71, 95, 84, 79, 80, 95, 49, 48,
    ];
    proof {
        assert(count@ =~= count_token());
        assert(top_ten@ =~= top_ten_token());
        assert(top_hundred@ =~= top_hundred_token());
        assert(top_ten_count@ =~= top_ten_count_token());
        assert(top_n_docs@ =~= top_n_docs_token());
        assert(debug_top_ten@ =~= debug_top_ten_token());
    }
    if eq_bytes(f, &count) {
        CommandKind::Count
    } else if eq_bytes(f, &top_ten) {
        CommandKind::TopTen
    } else if eq_bytes(f, &top_hundred) {
        CommandKind::TopHundred
    } else if eq_bytes(f, &top_ten_count) {
        CommandKind::TopTenCount
    } else if eq_bytes(f, &top_n_docs) {
        CommandKind::TopNDocs
    } else if eq_bytes(f, &debug_top_ten) {
        CommandKind::DebugTopTen
    } else {
        CommandKind::Unknown
    }
}

/// A decimal numeral: non-empty and all digit bytes.
pub open spec fn is_digits(s: Seq<u8>) -> bool {
    s.len() > 0 && forall|i: int| 0 <= i < s.len() ==> 48 <= #[trigger] s[i] <= 57
}

/// The value of a decimal numeral.
pub open spec fn dec_value(s: Seq<u8>) -> int
    decreases s.len(),
{
    if s.len() == 0 {
        0
    } else {
        dec_value(s.drop_last()) * 10 + (s.last() - 48)
    }
}

/// A numeral's value never falls below that of any of its prefixes.
proof fn lemma_dec_value_prefix(s: Seq<u8>, i: int)
    requires
        is_digits(s),
        0 <= i <= s.len(),
    ensures
        dec_value(s) >= dec_value(s.take(i)) >= 0,
    decreases s.len() - i,
{
    if i == s.len() {
        assert(s.take(i) =~= s);
        lemma_dec_value_nonneg(s);
    } else {
        lemma_dec_value_prefix(s, i + 1);
        let p = s.take(i + 1);
        assert(p.drop_last() =~= s.take(i));
        assert(p.last() == s[i]);
        lemma_dec_value_nonneg(s.take(i));
        assert(dec_value(p) == dec_value(s.take(i)) * 10 + (s[i] - 48));
    }
}

proof fn lemma_dec_value_nonneg(s: Seq<u8>)
    requires
        forall|i: int| 0 <= i < s.len() ==> 48 <= #[trigger] s[i] <= 57,
    ensures
        dec_value(s) >= 0,
    decreases s.len(),
{
    if s.len() > 0 {
        assert(forall|i: int| 0 <= i < s.drop_last().len() ==> 48 <= #[trigger] s.drop_last()[i] <= 57);
        lemma_dec_value_nonneg(s.drop_last());
    }
}

/// Parse the limit field of a top-`n` request. Returns the numeral's
/// value exactly when the field is a well-formed numeral whose value
/// fits the machine.
pub fn parse_limit(f: &Vec<u8>) -> (r: Option<usize>)
    ensures
        r is Some <==> is_digits(f@) && dec_value(f@) <= usize::MAX,
        r is Some ==> r->0 == dec_value(f@),
{
    let n = f.len();
    if n == 0 {
        return None;
    }
    let mut acc: usize = 0;
    let mut i: usize = 0;
    proof {
        assert(f@.take(0) =~= Seq::<u8>::empty());
    }
    while i < n
        invariant
            0 <= i <= n,
            n == f@.len(),
            n > 0,
            forall|j: int| 0 <= j < i ==> 48 <= #[trigger] f@[j] <= 57,
            acc == dec_value(f@.take(i as int)),
        decreases n - i,
    {
        let b = f[i];
        if b < 48 || b > 57 {
            assert(!is_digits(f@));
            return None;
        }
        let d: usize = (b - 48) as usize;
        proof {
            assert(f@.take(i as int + 1).drop_last() =~= f@.take(i as int));
            assert(f@.take(i as int + 1).last() == f@[i as int]);
        }
        if acc > usize::MAX / 10 {
            proof {
                lemma_overflow_step(f@, i as int, acc as int, d as int);
            }
            return None;
        }
        acc = acc * 10;
        if d > usize::MAX - acc {
            proof {
                lemma_overflow_step(f@, i as int, (acc / 10) as int, d as int);
            }
            return None;
        }
        acc = acc + d;
        i += 1;
    }
    proof {
        assert(f@.take(n as int) =~= f@);
    }
    Some(acc)
}

/// If one more digit pushes the running value past the machine limit,
/// the whole numeral is out of range.
proof fn lemma_overflow_step(s: Seq<u8>, i: int, acc: int, d: int)
    requires
        0 <= i < s.len(),
        forall|j: int| 0 <= j < i ==> 48 <= #[trigger] s[j] <= 57,
        48 <= s[i] <= 57,
        acc == dec_value(s.take(i)),
        d == s[i] - 48,
        acc * 10 + d > usize::MAX,
    ensures
        !(is_digits(s) && dec_value(s) <= usize::MAX),
{
    if is_digits(s) {
        lemma_dec_value_prefix(s, i + 1);
        assert(s.take(i + 1).drop_last() =~= s.take(i));
        assert(s.take(i + 1).last() == s[i]);
        assert(dec_value(s.take(i + 1)) == acc * 10 + d);
    }
}

/// One parsed command line, ready for execution.
pub enum ParsedCommand {
    /// Number of matching documents.
    Count { query: Vec<u8> },
    /// Count of documents in the top ten by score.
    TopTen { query: Vec<u8> },
    /// Count of documents in the top hundred by score.
    TopHundred { query: Vec<u8> },
    /// Total match count, computed alongside the top ten.
    TopTenCount { query: Vec<u8> },
    /// The top `n` document ids with their returned count.
    TopNDocs { query: Vec<u8>, n: usize },
    /// Run both evaluators per segment and verify equivalence.
    DebugTopTen { query: Vec<u8> },
    /// Unrecognized command: answered, not an error.
    Unsupported,
}

/// A per-line failure: the session reports it and goes on with the
/// next line.
#[derive(Clone, Copy, PartialEq, Eq, Structural, Debug)]
pub enum LineError {
    /// A recognized command came with the wrong number of fields.
    WrongFieldCount,
    /// The limit field of a top-`n` request is not a usable numeral.
    BadLimit,
}

/// What a line means: the mathematical counterpart of `ParsedCommand`.
pub enum LineOutcome {
    Count(Seq<u8>),
    TopTen(Seq<u8>),
    TopHundred(Seq<u8>),
    TopTenCount(Seq<u8>),
    TopNDocs(Seq<u8>, int),
    DebugTopTen(Seq<u8>),
    Unsupported,
    WrongFieldCount,
    BadLimit,
}

/// The meaning of one command line: fields are tab-separated; the
/// first names the command. The two-field commands demand exactly two
/// fields and the top-`n` command exactly three, anything else about
/// their shape is a per-line failure; an unrecognized command is
/// answered with an unsupported marker, never a failure.
pub open spec fn line_outcome(s: Seq<u8>) -> LineOutcome {
    let fs = split_tabs(s);
    match spec_command_kind(fs[0]) {
        CommandKind::Count => if fs.len() == 2 {
            LineOutcome::Count(fs[1])
        } else {
            LineOutcome::WrongFieldCount
        },
        CommandKind::TopTen => if fs.len() == 2 {
            LineOutcome::TopTen(fs[1])
        } else {
            LineOutcome::WrongFieldCount
        },
        CommandKind::TopHundred => if fs.len() == 2 {
            LineOutcome::TopHundred(fs[1])
        } else {
            LineOutcome::WrongFieldCount
        },
        CommandKind::TopTenCount => if fs.len() == 2 {
            LineOutcome::TopTenCount(fs[1])
        } else {
            LineOutcome::WrongFieldCount
        },
        CommandKind::TopNDocs => if fs.len() != 3 {
            LineOutcome::WrongFieldCount
        } else if is_digits(fs[2]) && dec_value(fs[2]) <= usize::MAX {
            LineOutcome::TopNDocs(fs[1], dec_value(fs[2]))
        } else {
            LineOutcome::BadLimit
        },
        CommandKind::DebugTopTen => if fs.len() == 2 {
            LineOutcome::DebugTopTen(fs[1])
        } else {
            LineOutcome::WrongFieldCount
        },
        CommandKind::Unknown => LineOutcome::Unsupported,
    }
}

/// Parse one command line. The result follows `line_outcome` exactly:
/// a recognized command with its fields, a per-line error for a
/// malformed line, or the unsupported marker.
pub fn parse_line(line: &Vec<u8>) -> (r: Result<ParsedCommand, LineError>)
    ensures
        match r {
            Ok(ParsedCommand::Count { query }) => line_outcome(line@) == LineOutcome::Count(
                query@,
            ),
            Ok(ParsedCommand::TopTen { query }) => line_outcome(line@) == LineOutcome::TopTen(
                query@,
            ),
            Ok(ParsedCommand::TopHundred { query }) => line_outcome(line@)
                == LineOutcome::TopHundred(query@),
            Ok(ParsedCommand::TopTenCount { query }) => line_outcome(line@)
                == LineOutcome::TopTenCount(query@),
            Ok(ParsedCommand::TopNDocs { query, n }) => line_outcome(line@)
                == LineOutcome::TopNDocs(query@, n as int),
            Ok(ParsedCommand::DebugTopTen { query }) => line_outcome(line@)
                == LineOutcome::DebugTopTen(query@),
            Ok(ParsedCommand::Unsupported) => line_outcome(line@) == LineOutcome::Unsupported,
            Err(LineError::WrongFieldCount) => line_outcome(line@)
                == LineOutcome::WrongFieldCount,
            Err(LineError::BadLimit) => line_outcome(line@) == LineOutcome::BadLimit,
        },
{
    let mut fields = split_fields(line);
    let ghost fs = split_tabs(line@);
    proof {
        assert(fields@.map_values(|f: Vec<u8>| f@).len() == fs.len());
        assert(fields@.len() >= 1) by {
            lemma_first_tab(line@);
            assert(fs.len() >= 1);
        }
        assert(fields@.map_values(|f: Vec<u8>| f@)[0] == fields@[0]@);
    }
    let kind = command_kind(&fields[0]);
    let nfields = fields.len();
    match kind {
        CommandKind::Unknown => Ok(ParsedCommand::Unsupported),
        CommandKind::TopNDocs => {
            if nfields != 3 {
                Err(LineError::WrongFieldCount)
            } else {
                proof {
                    assert(fields@.map_values(|f: Vec<u8>| f@)[2] == fields@[2]@);
                    assert(fields@.map_values(|f: Vec<u8>| f@)[1] == fields@[1]@);
                }
                let limit = parse_limit(&fields[2]);
                match limit {
                    Some(n) => {
                        let query = fields.remove(1);
                        Ok(ParsedCommand::TopNDocs { query, n })
                    },
                    None => Err(LineError::BadLimit),
                }
            }
        },
        _ => {
            if nfields != 2 {
                Err(LineError::WrongFieldCount)
            } else {
                proof {
                    assert(fields@.map_values(|f: Vec<u8>| f@)[1] == fields@[1]@);
                }
                let query = fields.pop().unwrap();
                match kind {
                    CommandKind::Count => Ok(ParsedCommand::Count { query }),
                    CommandKind::TopTen => Ok(ParsedCommand::TopTen { query }),
                    CommandKind::TopHundred => Ok(ParsedCommand::TopHundred { query }),
                    CommandKind::TopTenCount => Ok(ParsedCommand::TopTenCount { query }),
                    _ => Ok(ParsedCommand::DebugTopTen { query }),
                }
            }
        },
    }
}

/// The decimal numeral of `n`, most significant digit first.
pub open spec fn dec_digits(n: int) -> Seq<u8>
    decreases n,
{
    if n < 10 {
        seq![(48 + if n >= 0 { n } else { 0 }) as u8]
    } else {
        dec_digits(n / 10).push((48 + n % 10) as u8)
    }
}

/// Append the decimal numeral of `n`.
fn push_dec(n: u64, out: &mut Vec<u8>)
    ensures
        final(out)@ == old(out)@ + dec_digits(n as int),
    decreases n,
{
    if n < 10 {
        out.push(48 + n as u8);
        proof {
            assert(old(out)@ + dec_digits(n as int) =~= out@);
        }
    } else {
        push_dec(n / 10, out);
        out.push(48 + (n % 10) as u8);
        proof {
            assert(old(out)@ + dec_digits(n as int) =~= (old(out)@ + dec_digits(n as int / 10)).push(
                (48 + n as int % 10) as u8,
            ));
        }
    }
}

/// The decimal numeral of `n` as bytes.
pub fn format_u64(n: u64) -> (out: Vec<u8>)
    ensures
        out@ == dec_digits(n as int),
{
    let mut out: Vec<u8> = Vec::new();
    push_dec(n, &mut out);
    proof {
        assert(Seq::<u8>::empty() + dec_digits(n as int) =~= dec_digits(n as int));
    }
    out
}

/// One emitted line: the elapsed nanoseconds, one space, the result.
pub open spec fn output_line(nanos: int, result: Seq<u8>) -> Seq<u8> {
    dec_digits(nanos) + seq![32] + result
}

/// Format one emitted line from the elapsed time and the result text.
pub fn format_output(nanos: u64, result: &Vec<u8>) -> (out: Vec<u8>)
    ensures
        out@ == output_line(nanos as int, result@),
{
    let mut out = format_u64(nanos);
    out.push(32);
    let mut i: usize = 0;
    let n = result.len();
    while i < n
        invariant
            0 <= i <= n,
            n == result@.len(),
            out@ == dec_digits(nanos as int) + seq![32u8] + result@.take(i as int),
        decreases n - i,
    {
        out.push(result[i]);
        proof {
            assert(dec_digits(nanos as int) + seq![32u8] + result@.take(i as int + 1) =~= (
            dec_digits(nanos as int) + seq![32u8] + result@.take(i as int)).push(
                result@[i as int],
            ));
        }
        i += 1;
    }
    proof {
        assert(result@.take(n as int) =~= result@);
        assert(dec_digits(nanos as int) + seq![32u8] =~= dec_digits(nanos as int) + seq![32u8]
            + result@.take(0));
    }
    out
}

/// The id list of a top-`n` reply: ids separated by single spaces.
pub open spec fn joined_ids(ids: Seq<u32>) -> Seq<u8>
    decreases ids.len(),
{
    if ids.len() == 0 {
        Seq::empty()
    } else if ids.len() == 1 {
        dec_digits(ids[0] as int)
    } else {
        joined_ids(ids.drop_last()) + seq![32] + dec_digits(ids.last() as int)
    }
}

/// The reply to a top-`n` request: the returned count, a space, then
/// the ids. Zero matches yield the count `0` followed by the single
/// space and an empty list.
pub open spec fn top_n_docs_reply(ids: Seq<u32>) -> Seq<u8> {
    dec_digits(ids.len() as int) + seq![32] + joined_ids(ids)
}

/// Format the reply to a top-`n` request from the returned ids.
pub fn format_top_n_docs(ids: &Vec<u32>) -> (out: Vec<u8>)
    ensures
        out@ == top_n_docs_reply(ids@),
{
    let n = ids.len();
    let mut list: Vec<u8> = Vec::new();
    let mut i: usize = 0;
    proof {
        assert(ids@.take(0) =~= Seq::<u32>::empty());
    }
    while i < n
        invariant
            0 <= i <= n,
            n == ids@.len(),
            list@ == joined_ids(ids@.take(i as int)),
        decreases n - i,
    {
        if i > 0 {
            list.push(32);
        }
        push_dec(ids[i] as u64, &mut list);
        proof {
            let pre = ids@.take(i as int);
            let ext = ids@.take(i as int + 1);
            assert(ext.drop_last() =~= pre);
            assert(ext.last() == ids@[i as int]);
            if i == 0 {
                assert(joined_ids(ext) == dec_digits(ids@[0] as int));
                assert(list@ =~= joined_ids(ext));
            } else {
                assert(joined_ids(ext) == joined_ids(pre) + seq![32u8] + dec_digits(
                    ids@[i as int] as int,
                ));
                assert(list@ =~= joined_ids(ext));
            }
        }
        i += 1;
    }
    proof {
        assert(ids@.take(n as int) =~= ids@);
    }
    let count = format_u64(n as u64);
    let mut out = count;
    out.push(32);
    let m = list.len();
    let mut j: usize = 0;
    while j < m
        invariant
            0 <= j <= m,
            m == list@.len(),
            out@ == dec_digits(ids@.len() as int) + seq![32u8] + list@.take(j as int),
        decreases m - j,
    {
        out.push(list[j]);
        proof {
            assert(dec_digits(ids@.len() as int) + seq![32u8] + list@.take(j as int + 1) =~= (
            dec_digits(ids@.len() as int) + seq![32u8] + list@.take(j as int)).push(
                list@[j as int],
            ));
        }
        j += 1;
    }
    proof {
        assert(list@.take(m as int) =~= list@);
        assert(dec_digits(ids@.len() as int) + seq![32u8] =~= dec_digits(ids@.len() as int)
            + seq![32u8] + list@.take(0));
    }
    out
}

} // verus!
