//! Human-readable text image of the task store, with a verified round trip:
//! parsing a saved image yields exactly the store that was saved.
//!
//! The image is line-oriented: a header line `next_id count`, then one line
//! per task of the form `id completed-flag description-length description`.
//! The description is written verbatim (it may contain any characters,
//! including newlines); the length field delimits it.

use vstd::prelude::*;
use vstd::string::StrSliceExecFns;
use vstd::string::StringExecFns;
use crate::store::StoreModel;
use crate::store::Task;
use crate::store::TaskModel;
use crate::store::TaskRepository;

verus! {

/// The character standing for decimal digit `d`.
pub open spec fn spec_digit_char(d: int) -> char {
    if d == 0 {
        '0'
    } else if d == 1 {
        '1'
    } else if d == 2 {
        '2'
    } else if d == 3 {
        '3'
    } else if d == 4 {
        '4'
    } else if d == 5 {
        '5'
    } else if d == 6 {
        '6'
    } else if d == 7 {
        '7'
    } else if d == 8 {
        '8'
    } else {
        '9'
    }
}

/// Whether `c` is a decimal digit.
pub open spec fn is_digit(c: char) -> bool {
    48 <= c as u32 <= 57
}

/// Decimal value of a digit character.
pub open spec fn digit_val(c: char) -> int {
    c as u32 - 48
}

/// Canonical decimal representation of `n`: most significant digit first,
/// no leading zeros (`0` itself is the single character `'0'`).
pub open spec fn dec_rep(n: nat) -> Seq<char>
    decreases n,
{
    if n < 10 {
        seq![spec_digit_char(n as int)]
    } else {
        dec_rep(n / 10).push(spec_digit_char((n % 10) as int))
    }
}

/// The flag character: `'1'` for completed, `'0'` for open.
pub open spec fn enc_bool(b: bool) -> Seq<char> {
    if b {
        seq!['1']
    } else {
        seq!['0']
    }
}

/// One task line: id, flag, description length, description, newline.
pub open spec fn enc_task(t: TaskModel) -> Seq<char> {
    dec_rep(t.id as nat) + seq![' '] + enc_bool(t.completed) + seq![' '] + dec_rep(
        t.description.len(),
    ) + seq![' '] + t.description + seq!['\n']
}

/// The task lines, in store order.
pub open spec fn enc_tasks(ts: Seq<TaskModel>) -> Seq<char>
    decreases ts.len(),
{
    if ts.len() == 0 {
        Seq::empty()
    } else {
        enc_tasks(ts.drop_last()) + enc_task(ts.last())
    }
}

/// The header line: the id counter and the task count.
pub open spec fn spec_header(m: StoreModel) -> Seq<char> {
    dec_rep(m.next_id as nat) + seq![' '] + dec_rep(m.tasks.len()) + seq!['\n']
}

/// The full text image of a store.
pub open spec fn spec_save(m: StoreModel) -> Seq<char> {
    spec_header(m) + enc_tasks(m.tasks)
}

/// Every character of `dec_rep(n)` is a digit; it is nonempty; and it starts
/// with `'0'` exactly when `n` is zero.
pub proof fn lemma_dec_rep_digits(n: nat)
    ensures
        dec_rep(n).len() >= 1,
        forall|k: int| 0 <= k < dec_rep(n).len() ==> is_digit(#[trigger] dec_rep(n)[k]),
        dec_rep(n)[0] == '0' ==> n == 0,
        n == 0 ==> dec_rep(n) =~= seq!['0'],
    decreases n,
{
    if n >= 10 {
        lemma_dec_rep_digits(n / 10);
    }
}

/// The numeric value read back from a digit string, most significant first.
pub open spec fn val_of(s: Seq<char>) -> int
    decreases s.len(),
{
    if s.len() == 0 {
        0
    } else {
        val_of(s.drop_last()) * 10 + digit_val(s.last())
    }
}

/// Reading back the canonical representation recovers the number.
pub proof fn lemma_val_of_dec_rep(n: nat)
    ensures
        val_of(dec_rep(n)) == n,
    decreases n,
{
    if n < 10 {
        assert(dec_rep(n).drop_last() =~= Seq::<char>::empty());
        assert(val_of(Seq::<char>::empty()) == 0);
        assert(dec_rep(n).last() == spec_digit_char(n as int));
        assert(digit_val(spec_digit_char(n as int)) == n);
    } else {
        lemma_val_of_dec_rep(n / 10);
        assert(dec_rep(n).drop_last() =~= dec_rep(n / 10));
        assert(dec_rep(n).last() == spec_digit_char((n % 10) as int));
        assert(digit_val(spec_digit_char((n % 10) as int)) == n % 10);
        assert(val_of(dec_rep(n)) == val_of(dec_rep(n).drop_last()) * 10 + digit_val(
            dec_rep(n).last(),
        ));
        assert(val_of(dec_rep(n)) == (n / 10) * 10 + (n % 10));
    }
}

/// A digit string reads back a nonnegative value.
pub proof fn lemma_val_of_nonneg(s: Seq<char>)
    requires
        forall|k: int| 0 <= k < s.len() ==> is_digit(#[trigger] s[k]),
    ensures
        val_of(s) >= 0,
    decreases s.len(),
{
    if s.len() > 0 {
        lemma_val_of_nonneg(s.drop_last());
    }
}

/// Appending further digits never lowers the value read back.
pub proof fn lemma_val_of_extend(t: Seq<char>, u: Seq<char>)
    requires
        forall|k: int| 0 <= k < t.len() ==> is_digit(#[trigger] t[k]),
        forall|k: int| 0 <= k < u.len() ==> is_digit(#[trigger] u[k]),
    ensures
        val_of(t) <= val_of(t + u),
    decreases u.len(),
{
    if u.len() == 0 {
        assert(t + u =~= t);
    } else {
        lemma_val_of_extend(t, u.drop_last());
        assert((t + u).drop_last() =~= t + u.drop_last());
        lemma_val_of_nonneg(t);
        assert(forall|k: int|
            0 <= k < (t + u.drop_last()).len() ==> is_digit(#[trigger] (t + u.drop_last())[k]));
        lemma_val_of_nonneg(t + u.drop_last());
        assert(val_of(t + u) == val_of(t + u.drop_last()) * 10 + digit_val((t + u).last()));
    }
}

/// Task lines concatenate: the image of a joined sequence is the joined images.
pub proof fn lemma_enc_tasks_append(a: Seq<TaskModel>, b: Seq<TaskModel>)
    ensures
        enc_tasks(a + b) == enc_tasks(a) + enc_tasks(b),
    decreases b.len(),
{
    if b.len() == 0 {
        assert(a + b =~= a);
        assert(enc_tasks(a) + enc_tasks(b) =~= enc_tasks(a));
    } else {
        lemma_enc_tasks_append(a, b.drop_last());
        assert((a + b).drop_last() =~= a + b.drop_last());
        assert((a + b).last() == b.last());
        assert(enc_tasks(a) + enc_tasks(b.drop_last()) + enc_task(b.last()) =~= enc_tasks(a) + (
        enc_tasks(b.drop_last()) + enc_task(b.last())));
    }
}

/// Append one decimal digit character to `out`.
fn push_digit(out: &mut String, d: u8)
    requires
        d < 10,
    ensures
        final(out)@ == old(out)@ + seq![spec_digit_char(d as int)],
{
    let table = "0123456789";
    proof {
        reveal_strlit("0123456789");
    }
    let piece = table.substring_char(d as usize, d as usize + 1);
    proof {
        assert(piece@ =~= seq![spec_digit_char(d as int)]);
    }
    out.append(piece);
}

/// Append the canonical decimal representation of `n` to `out`.
fn push_num(out: &mut String, n: usize)
    ensures
        final(out)@ == old(out)@ + dec_rep(n as nat),
    decreases n,
{
    if n < 10 {
        push_digit(out, n as u8);
    } else {
        push_num(out, n / 10);
        push_digit(out, (n % 10) as u8);
        proof {
            assert((n as nat) / 10 == (n / 10) as nat);
            assert(old(out)@ + dec_rep((n / 10) as nat) + seq![
                spec_digit_char((n % 10) as int),
            ] =~= old(out)@ + dec_rep(n as nat));
        }
    }
}

/// Append a single space to `out`.
fn push_space(out: &mut String)
    ensures
        final(out)@ == old(out)@ + seq![' '],
{
    let piece = " ";
    proof {
        reveal_strlit(" ");
        assert(piece@ =~= seq![' ']);
    }
    out.append(piece);
}

/// Append a single newline to `out`.
fn push_newline(out: &mut String)
    ensures
        final(out)@ == old(out)@ + seq!['\n'],
{
    let piece = "\n";
    proof {
        reveal_strlit("\n");
        assert(piece@ =~= seq!['\n']);
    }
    out.append(piece);
}

/// Append the completion flag to `out`.
fn push_flag(out: &mut String, b: bool)
    ensures
        final(out)@ == old(out)@ + enc_bool(b),
{
    let piece = if b {
        "1"
    } else {
        "0"
    };
    proof {
        reveal_strlit("1");
        reveal_strlit("0");
        assert(piece@ =~= enc_bool(b));
    }
    out.append(piece);
}

/// Append one task line to `out`.
fn push_task(out: &mut String, t: &Task)
    ensures
        final(out)@ == old(out)@ + enc_task(t@),
{
    push_num(out, t.id);
    push_space(out);
    push_flag(out, t.completed);
    push_space(out);
    let dlen = t.description.as_str().unicode_len();
    push_num(out, dlen);
    push_space(out);
    out.append(t.description.as_str());
    push_newline(out);
    proof {
        assert(final(out)@ =~= old(out)@ + enc_task(t@));
    }
}

/// A canonical decimal number with value `n` stands at `[start, end)` of `s`,
/// delimited on the right by a non-digit or the end of `s`.
pub open spec fn num_at(s: Seq<char>, start: int, n: nat, end: int) -> bool {
    &&& 0 <= start <= end <= s.len()
    &&& s.subrange(start, end) == dec_rep(n)
    &&& (end == s.len() || !is_digit(s[end]))
}

/// Whether a digit character stands at position `i` of `s`.
fn digit_at(s: &str, len: usize, i: usize) -> (r: bool)
    requires
        len == s@.len(),
        i <= len,
    ensures
        r <==> (i < len && is_digit(s@[i as int])),
{
    if i < len {
        let u = s.get_char(i) as u32;
        48 <= u && u <= 57
    } else {
        false
    }
}

/// Decimal value of `c`, if `c` is a digit.
fn char_digit(c: char) -> (r: Option<u8>)
    ensures
        r matches Some(d) ==> is_digit(c) && d < 10 && d as int == digit_val(c),
        r is None ==> !is_digit(c),
{
    let u = c as u32;
    if 48 <= u && u <= 57 {
        Some((u - 48) as u8)
    } else {
        None
    }
}

/// Parse the canonical decimal number starting at `start`: its value and the
/// position just past it. Refuses a missing digit, a redundant leading zero,
/// and a value over `usize::MAX`.
fn parse_num(s: &str, len: usize, start: usize) -> (r: Option<(usize, usize)>)
    requires
        len == s@.len(),
        start <= len,
    ensures
        r matches Some(p) ==> start < p.1 <= len && num_at(s@, start as int, p.0 as nat, p.1 as int),
        forall|n: usize, end: int|
            num_at(s@, start as int, n as nat, end) ==> (r matches Some(p) && p.0 == n && p.1
                == end),
{
    if start == len {
        proof {
            assert forall|n: usize, end: int| !num_at(s@, start as int, n as nat, end) by {
                lemma_dec_rep_digits(n as nat);
            }
        }
        return None;
    }
    let c0 = s.get_char(start);
    let d0 = match char_digit(c0) {
        Some(d) => d,
        None => {
            proof {
                assert forall|n: usize, end: int| !num_at(s@, start as int, n as nat, end) by {
                    lemma_dec_rep_digits(n as nat);
                    if num_at(s@, start as int, n as nat, end) {
                        assert(s@[start as int] == dec_rep(n as nat)[0]);
                    }
                }
            }
            return None;
        },
    };
    if c0 == '0' {
        // canonical form: a leading zero only stands alone
        if start + 1 < len {
            let c1 = s.get_char(start + 1);
            if char_digit(c1).is_some() {
                proof {
                    assert forall|n: usize, end: int| !num_at(s@, start as int, n as nat, end) by {
                        lemma_dec_rep_digits(n as nat);
                        if num_at(s@, start as int, n as nat, end) {
                            assert(s@[start as int] == dec_rep(n as nat)[0]);
                            assert(n == 0);
                            assert(dec_rep(n as nat).len() == 1);
                            assert(end == start + 1);
                        }
                    }
                }
                return None;
            }
        }
        proof {
            lemma_dec_rep_digits(0);
            assert(s@.subrange(start as int, start + 1) =~= dec_rep(0));
            assert(num_at(s@, start as int, 0, start + 1));
            assert forall|n: usize, end: int|
                num_at(s@, start as int, n as nat, end) implies n == 0 && end == start + 1 by {
                lemma_dec_rep_digits(n as nat);
                assert(s@[start as int] == dec_rep(n as nat)[0]);
            }
        }
        return Some((0, start + 1));
    }
    let mut val: usize = d0 as usize;
    let mut cur: usize = start + 1;
    proof {
        assert(s@.subrange(start as int, cur as int) =~= seq![c0]);
        assert(dec_rep(val as nat) =~= seq![spec_digit_char(val as int)]);
        assert(spec_digit_char(val as int) == c0);
    }
    while digit_at(s, len, cur)
        invariant
            len == s@.len(),
            start < cur <= len,
            1 <= val,
            s@.subrange(start as int, cur as int) == dec_rep(val as nat),
        decreases len - cur,
    {
        let c = s.get_char(cur);
        let d = char_digit(c).unwrap();
        proof {
            lemma_dec_rep_digits(val as nat);
        }
        if val > (usize::MAX - d as usize) / 10 {
            proof {
                let full = s@.subrange(start as int, cur as int).push(c);
                assert(full =~= s@.subrange(start as int, cur + 1));
                assert(c == spec_digit_char(d as int)) by {
                    assert(digit_val(c) == d);
                };
                assert(full == dec_rep((val * 10 + d) as nat)) by {
                    assert((val * 10 + d) as nat / 10 == val as nat) by (nonlinear_arith)
                        requires
                            d < 10,
                            1 <= val,
                    ;
                    assert((val * 10 + d) as nat % 10 == d as nat) by (nonlinear_arith)
                        requires
                            d < 10,
                            0 <= val,
                    ;
                    assert(dec_rep((val * 10 + d) as nat) == dec_rep(val as nat).push(
                        spec_digit_char(d as int),
                    ));
                };
                assert(val * 10 + d > usize::MAX) by (nonlinear_arith)
                    requires
                        val > (usize::MAX - d as usize) / 10,
                        d < 10,
                ;
                assert forall|n: usize, end: int| !num_at(s@, start as int, n as nat, end) by {
                    lemma_dec_rep_digits(n as nat);
                    if num_at(s@, start as int, n as nat, end) {
                        // the region [start, end) is all digits; the parser is still
                        // inside it, so the next prefix is a prefix of dec_rep(n)
                        if end <= cur {
                            assert(s@[end] == dec_rep(val as nat)[end - start]);
                            assert(false);
                        } else {
                            assert(full =~= dec_rep(n as nat).take(cur + 1 - start));
                            let rest = dec_rep(n as nat).skip(cur + 1 - start);
                            assert(dec_rep(n as nat) =~= full + rest);
                            lemma_val_of_extend(full, rest);
                            lemma_val_of_dec_rep((val * 10 + d) as nat);
                            lemma_val_of_dec_rep(n as nat);
                            assert(false);
                        }
                    }
                }
            }
            return None;
        }
        let ghost old_val = val as nat;
        val = val * 10 + d as usize;
        proof {
            assert(s@.subrange(start as int, cur + 1) =~= s@.subrange(start as int, cur as int)
                .push(c));
            assert(c == spec_digit_char(d as int)) by {
                assert(digit_val(c) == d);
            };
            assert((val as nat) / 10 == old_val) by (nonlinear_arith)
                requires
                    val == old_val * 10 + d,
                    d < 10,
                    1 <= old_val,
            ;
            assert((val as nat) % 10 == d as nat) by (nonlinear_arith)
                requires
                    val == old_val * 10 + d,
                    d < 10,
                    0 <= old_val,
            ;
            assert(dec_rep(val as nat) == dec_rep(old_val).push(spec_digit_char(d as int)));
        }
        cur = cur + 1;
    }
    proof {
        assert(num_at(s@, start as int, val as nat, cur as int)) by {
            if cur < len {
                assert(!is_digit(s@[cur as int]));
            }
        };
        assert forall|n: usize, end: int|
            num_at(s@, start as int, n as nat, end) implies n == val && end == cur by {
            lemma_dec_rep_digits(n as nat);
            lemma_dec_rep_digits(val as nat);
            if end < cur {
                assert(s@[end] == dec_rep(val as nat)[end - start]);
                assert(false);
            } else if end > cur {
                assert(s@[cur as int] == dec_rep(n as nat)[cur - start]);
                assert(false);
            } else {
                lemma_val_of_dec_rep(n as nat);
                lemma_val_of_dec_rep(val as nat);
                assert(dec_rep(n as nat) == dec_rep(val as nat));
            }
        }
    }
    Some((val, cur))
}

/// One task line with model `t` fills `[start, end)` of `s`.
pub open spec fn task_at(s: Seq<char>, start: int, t: TaskModel, end: int) -> bool {
    &&& 0 <= start <= end <= s.len()
    &&& s.subrange(start, end) == enc_task(t)
}

/// A known subrange splits at a piece boundary.
proof fn lemma_subrange_split(s: Seq<char>, start: int, end: int, a: Seq<char>, b: Seq<char>)
    requires
        0 <= start <= end <= s.len(),
        s.subrange(start, end) == a + b,
    ensures
        start + a.len() <= end,
        s.subrange(start, start + a.len()) == a,
        s.subrange(start + a.len(), end) == b,
{
    assert(s.subrange(start, end).len() == end - start);
    assert((a + b).len() == a.len() + b.len());
    assert(forall|j: int|
        0 <= j < end - start ==> #[trigger] s.subrange(start, end)[j] == s[start + j]);
    assert(s.subrange(start, start + a.len() as int) =~= a);
    assert forall|j: int|
        0 <= j < b.len() implies #[trigger] s.subrange(start + a.len() as int, end)[j] == b[j] by {
        assert(s.subrange(start + a.len() as int, end)[j] == s[start + a.len() + j]);
        assert(s.subrange(start, end)[a.len() + j] == s[start + a.len() + j]);
        assert((a + b)[a.len() + j] == b[j]);
    }
    assert(s.subrange(start + a.len() as int, end) =~= b);
}

/// Two adjacent known subranges join.
proof fn lemma_subrange_join(
    s: Seq<char>,
    start: int,
    mid: int,
    end: int,
    a: Seq<char>,
    b: Seq<char>,
)
    requires
        0 <= start <= mid <= end <= s.len(),
        s.subrange(start, mid) == a,
        s.subrange(mid, end) == b,
    ensures
        s.subrange(start, end) == a + b,
{
    assert(s.subrange(start, end) =~= a + b);
}

/// Where each piece of a task line stands, given that the whole line does.
proof fn lemma_task_at_pieces(s: Seq<char>, start: int, t: TaskModel, end: int)
    requires
        task_at(s, start, t, end),
    ensures
        ({
            let l1 = dec_rep(t.id as nat).len() as int;
            let l2 = dec_rep(t.description.len()).len() as int;
            let dlen = t.description.len() as int;
            &&& end == start + l1 + 3 + l2 + 1 + dlen + 1
            &&& num_at(s, start, t.id as nat, start + l1)
            &&& s[start + l1] == ' '
            &&& s[start + l1 + 1] == enc_bool(t.completed)[0]
            &&& s[start + l1 + 2] == ' '
            &&& num_at(s, start + l1 + 3, t.description.len(), start + l1 + 3 + l2)
            &&& s[start + l1 + 3 + l2] == ' '
            &&& s.subrange(start + l1 + 4 + l2, start + l1 + 4 + l2 + dlen) == t.description
            &&& s[start + l1 + 4 + l2 + dlen] == '\n'
        }),
{
    let a = dec_rep(t.id as nat);
    let c = enc_bool(t.completed);
    let f = dec_rep(t.description.len());
    let h = t.description;
    let sp = seq![' '];
    let nl = seq!['\n'];
    lemma_dec_rep_digits(t.id as nat);
    lemma_dec_rep_digits(t.description.len());
    assert(enc_task(t) == (a + sp + c + sp + f + sp + h) + nl);
    lemma_subrange_split(s, start, end, a + sp + c + sp + f + sp + h, nl);
    let e7 = start + (a + sp + c + sp + f + sp + h).len() as int;
    lemma_subrange_split(s, start, e7, a + sp + c + sp + f + sp, h);
    let e6 = start + (a + sp + c + sp + f + sp).len() as int;
    lemma_subrange_split(s, start, e6, a + sp + c + sp + f, sp);
    let e5 = start + (a + sp + c + sp + f).len() as int;
    lemma_subrange_split(s, start, e5, a + sp + c + sp, f);
    let e4 = start + (a + sp + c + sp).len() as int;
    lemma_subrange_split(s, start, e4, a + sp + c, sp);
    let e3 = start + (a + sp + c).len() as int;
    lemma_subrange_split(s, start, e3, a + sp, c);
    let e2 = start + (a + sp).len() as int;
    lemma_subrange_split(s, start, e2, a, sp);
    let l1 = a.len() as int;
    let l2 = f.len() as int;
    let dlen = h.len() as int;
    assert(s[start + l1] == s.subrange(start + l1, e2)[0]);
    assert(s[start + l1 + 1] == s.subrange(e2, e3)[0]);
    assert(s[start + l1 + 2] == s.subrange(e3, e4)[0]);
    assert(s[start + l1 + 3 + l2] == s.subrange(e5, e6)[0]);
    assert(s[start + l1 + 4 + l2 + dlen] == s.subrange(e7, end)[0]);
    assert(!is_digit(' '));
    assert(num_at(s, start, t.id as nat, start + l1));
    assert(num_at(s, start + l1 + 3, t.description.len(), start + l1 + 3 + l2));
}

/// Whether the character at `i` is exactly `c`.
fn expect_char(s: &str, len: usize, i: usize, c: char) -> (r: bool)
    requires
        len == s@.len(),
        i <= len,
    ensures
        r <==> (i < len && s@[i as int] == c),
{
    if i < len {
        s.get_char(i) == c
    } else {
        false
    }
}

/// Parse one task line starting at `start`: the task and the position just
/// past its terminating newline.
#[verifier::rlimit(100)]
fn parse_task(s: &str, len: usize, start: usize) -> (r: Option<(Task, usize)>)
    requires
        len == s@.len(),
        start <= len,
    ensures
        r matches Some(p) ==> start < p.1 <= len && task_at(s@, start as int, p.0@, p.1 as int),
        forall|t: TaskModel, end: int|
            task_at(s@, start as int, t, end) ==> (r matches Some(p) && p.0@ == t && p.1 == end),
{
    let idp = match parse_num(s, len, start) {
        Some(p) => p,
        None => {
            proof {
                assert forall|t: TaskModel, end: int| !task_at(s@, start as int, t, end) by {
                    if task_at(s@, start as int, t, end) {
                        lemma_task_at_pieces(s@, start as int, t, end);
                    }
                }
            }
            return None;
        },
    };
    let id = idp.0;
    let c1 = idp.1;
    if !expect_char(s, len, c1, ' ') {
        proof {
            assert forall|t: TaskModel, end: int| !task_at(s@, start as int, t, end) by {
                if task_at(s@, start as int, t, end) {
                    lemma_task_at_pieces(s@, start as int, t, end);
                }
            }
        }
        return None;
    }
    let fp = c1 + 1;
    if fp >= len {
        proof {
            assert forall|t: TaskModel, end: int| !task_at(s@, start as int, t, end) by {
                if task_at(s@, start as int, t, end) {
                    lemma_task_at_pieces(s@, start as int, t, end);
                }
            }
        }
        return None;
    }
    let cf = s.get_char(fp);
    let completed = if cf == '1' {
        true
    } else if cf == '0' {
        false
    } else {
        proof {
            assert forall|t: TaskModel, end: int| !task_at(s@, start as int, t, end) by {
                if task_at(s@, start as int, t, end) {
                    lemma_task_at_pieces(s@, start as int, t, end);
                }
            }
        }
        return None;
    };
    if !expect_char(s, len, fp + 1, ' ') {
        proof {
            assert forall|t: TaskModel, end: int| !task_at(s@, start as int, t, end) by {
                if task_at(s@, start as int, t, end) {
                    lemma_task_at_pieces(s@, start as int, t, end);
                }
            }
        }
        return None;
    }
    let dlp = match parse_num(s, len, fp + 2) {
        Some(p) => p,
        None => {
            proof {
                assert forall|t: TaskModel, end: int| !task_at(s@, start as int, t, end) by {
                    if task_at(s@, start as int, t, end) {
                        lemma_task_at_pieces(s@, start as int, t, end);
                        let l1 = dec_rep(t.id as nat).len() as int;
                        let l2 = dec_rep(t.description.len()).len() as int;
                        let dl_us = t.description.len() as usize;
                        assert(num_at(s@, fp + 2, dl_us as nat, start + l1 + 3 + l2));
                    }
                }
            }
            return None;
        },
    };
    let dlen = dlp.0;
    let c2 = dlp.1;
    if !expect_char(s, len, c2, ' ') {
        proof {
            assert forall|t: TaskModel, end: int| !task_at(s@, start as int, t, end) by {
                if task_at(s@, start as int, t, end) {
                    lemma_task_at_pieces(s@, start as int, t, end);
                    let l1 = dec_rep(t.id as nat).len() as int;
                    let l2 = dec_rep(t.description.len()).len() as int;
                    let dl_us = t.description.len() as usize;
                    assert(num_at(s@, fp + 2, dl_us as nat, start + l1 + 3 + l2));
                }
            }
        }
        return None;
    }
    let dstart = c2 + 1;
    if dlen > len - dstart {
        proof {
            assert forall|t: TaskModel, end: int| !task_at(s@, start as int, t, end) by {
                if task_at(s@, start as int, t, end) {
                    lemma_task_at_pieces(s@, start as int, t, end);
                    let l1 = dec_rep(t.id as nat).len() as int;
                    let l2 = dec_rep(t.description.len()).len() as int;
                    let dl_us = t.description.len() as usize;
                    assert(num_at(s@, fp + 2, dl_us as nat, start + l1 + 3 + l2));
                    assert(dlen == dl_us);
                }
            }
        }
        return None;
    }
    let dend = dstart + dlen;
    let piece = s.substring_char(dstart, dend);
    let description = String::from_str(piece);
    if !expect_char(s, len, dend, '\n') {
        proof {
            assert forall|t: TaskModel, end: int| !task_at(s@, start as int, t, end) by {
                if task_at(s@, start as int, t, end) {
                    lemma_task_at_pieces(s@, start as int, t, end);
                    let l1 = dec_rep(t.id as nat).len() as int;
                    let l2 = dec_rep(t.description.len()).len() as int;
                    let dl_us = t.description.len() as usize;
                    assert(num_at(s@, fp + 2, dl_us as nat, start + l1 + 3 + l2));
                    assert(dlen == dl_us);
                    assert(s@[start + l1 + 4 + l2 + dlen] == '\n');
                }
            }
        }
        return None;
    }
    let task = Task { id, description, completed };
    proof {
        let st = start as int;
        // soundness: the pieces join back into one task line
        assert(s@.subrange(st, c1 as int) == dec_rep(task@.id as nat));
        assert(s@.subrange(c1 as int, fp as int) =~= seq![' ']);
        assert(s@.subrange(fp as int, fp + 1) =~= enc_bool(completed));
        assert(s@.subrange(fp + 1, fp + 2) =~= seq![' ']);
        assert(s@.subrange(fp + 2, c2 as int) == dec_rep(dlen as nat));
        assert(s@.subrange(c2 as int, dstart as int) =~= seq![' ']);
        assert(s@.subrange(dstart as int, dend as int) == task@.description);
        assert(task@.description.len() == dlen);
        assert(s@.subrange(dend as int, dend + 1) =~= seq!['\n']);
        lemma_subrange_join(
            s@,
            st,
            c1 as int,
            fp as int,
            dec_rep(task@.id as nat),
            seq![' '],
        );
        lemma_subrange_join(
            s@,
            st,
            fp as int,
            fp + 1,
            dec_rep(task@.id as nat) + seq![' '],
            enc_bool(completed),
        );
        lemma_subrange_join(
            s@,
            st,
            fp + 1,
            fp + 2,
            dec_rep(task@.id as nat) + seq![' '] + enc_bool(completed),
            seq![' '],
        );
        lemma_subrange_join(
            s@,
            st,
            fp + 2,
            c2 as int,
            dec_rep(task@.id as nat) + seq![' '] + enc_bool(completed) + seq![' '],
            dec_rep(dlen as nat),
        );
        lemma_subrange_join(
            s@,
            st,
            c2 as int,
            dstart as int,
            dec_rep(task@.id as nat) + seq![' '] + enc_bool(completed) + seq![' '] + dec_rep(
                dlen as nat,
            ),
            seq![' '],
        );
        lemma_subrange_join(
            s@,
            st,
            dstart as int,
            dend as int,
            dec_rep(task@.id as nat) + seq![' '] + enc_bool(completed) + seq![' '] + dec_rep(
                dlen as nat,
            ) + seq![' '],
            task@.description,
        );
        lemma_subrange_join(
            s@,
            st,
            dend as int,
            dend + 1,
            dec_rep(task@.id as nat) + seq![' '] + enc_bool(completed) + seq![' '] + dec_rep(
                dlen as nat,
            ) + seq![' '] + task@.description,
            seq!['\n'],
        );
        assert(s@.subrange(st, dend + 1) == enc_task(task@));
        assert(task_at(s@, st, task@, dend + 1));
        // completeness: any task line standing here is exactly this one
        assert forall|t: TaskModel, end: int|
            task_at(s@, st, t, end) implies t == task@ && end == dend + 1 by {
            lemma_task_at_pieces(s@, st, t, end);
            let l1 = dec_rep(t.id as nat).len() as int;
            let l2 = dec_rep(t.description.len()).len() as int;
            assert(id == t.id && c1 == st + l1);
            assert(s@[fp as int] == enc_bool(t.completed)[0]);
            assert(completed == t.completed);
            let dl_us = t.description.len() as usize;
            assert(dl_us as nat == t.description.len());
            assert(num_at(s@, fp + 2, dl_us as nat, st + l1 + 3 + l2));
            assert(dlen == dl_us && c2 == st + l1 + 3 + l2);
            assert(s@.subrange(dstart as int, dend as int) == t.description);
            assert(task@ =~= t);
            assert(end == dend + 1);
        }
    }
    Some((task, dend + 1))
}

/// A task line is never empty, so the image of `ts` has at least one
/// character per task.
pub proof fn lemma_enc_tasks_len(ts: Seq<TaskModel>)
    ensures
        enc_tasks(ts).len() >= ts.len(),
    decreases ts.len(),
{
    if ts.len() > 0 {
        lemma_enc_tasks_len(ts.drop_last());
    }
}

/// Where the header pieces of a store image stand.
proof fn lemma_save_pieces(s: Seq<char>, m: StoreModel)
    requires
        s == spec_save(m),
    ensures
        ({
            let l1 = dec_rep(m.next_id as nat).len() as int;
            let l2 = dec_rep(m.tasks.len()).len() as int;
            &&& s.len() == l1 + 1 + l2 + 1 + enc_tasks(m.tasks).len()
            &&& m.tasks.len() <= enc_tasks(m.tasks).len()
            &&& num_at(s, 0, m.next_id as nat, l1)
            &&& s[l1] == ' '
            &&& num_at(s, l1 + 1, m.tasks.len(), l1 + 1 + l2)
            &&& s[l1 + 1 + l2] == '\n'
            &&& s.subrange(l1 + 2 + l2, s.len() as int) == enc_tasks(m.tasks)
        }),
{
    let a = dec_rep(m.next_id as nat);
    let f = dec_rep(m.tasks.len());
    let sp = seq![' '];
    let nl = seq!['\n'];
    lemma_dec_rep_digits(m.next_id as nat);
    lemma_dec_rep_digits(m.tasks.len());
    lemma_enc_tasks_len(m.tasks);
    assert(s.subrange(0, s.len() as int) =~= s);
    assert(spec_save(m) == (a + sp + f + nl) + enc_tasks(m.tasks));
    lemma_subrange_split(s, 0, s.len() as int, a + sp + f + nl, enc_tasks(m.tasks));
    lemma_subrange_split(s, 0, (a + sp + f + nl).len() as int, a + sp + f, nl);
    lemma_subrange_split(s, 0, (a + sp + f).len() as int, a + sp, f);
    lemma_subrange_split(s, 0, (a + sp).len() as int, a, sp);
    let l1 = a.len() as int;
    let l2 = f.len() as int;
    assert(s[l1] == s.subrange(l1, l1 + 1)[0]);
    assert(s[l1 + 1 + l2] == s.subrange(l1 + 1 + l2, l1 + 2 + l2)[0]);
    assert(!is_digit(' '));
    assert(!is_digit('\n'));
    assert(num_at(s, 0, m.next_id as nat, l1));
    assert(num_at(s, l1 + 1, m.tasks.len(), l1 + 1 + l2));
}

/// Where task line `k` of a store image stands.
proof fn lemma_task_k_at(s: Seq<char>, m: StoreModel, k: int, h3: int)
    requires
        s == spec_save(m),
        0 <= k < m.tasks.len(),
        h3 == dec_rep(m.next_id as nat).len() + 1 + dec_rep(m.tasks.len()).len() + 1,
    ensures
        enc_tasks(m.tasks.take(k + 1)) == enc_tasks(m.tasks.take(k)) + enc_task(m.tasks[k]),
        task_at(
            s,
            h3 + enc_tasks(m.tasks.take(k)).len(),
            m.tasks[k],
            h3 + enc_tasks(m.tasks.take(k)).len() + enc_task(m.tasks[k]).len(),
        ),
{
    lemma_save_pieces(s, m);
    assert(m.tasks =~= m.tasks.take(k + 1) + m.tasks.skip(k + 1));
    lemma_enc_tasks_append(m.tasks.take(k + 1), m.tasks.skip(k + 1));
    assert(m.tasks.take(k + 1).drop_last() =~= m.tasks.take(k));
    assert(m.tasks.take(k + 1).last() == m.tasks[k]);
    assert(enc_tasks(m.tasks.take(k + 1)) == enc_tasks(m.tasks.take(k)) + enc_task(m.tasks[k]));
    lemma_subrange_split(
        s,
        h3,
        s.len() as int,
        enc_tasks(m.tasks.take(k + 1)),
        enc_tasks(m.tasks.skip(k + 1)),
    );
    lemma_subrange_split(
        s,
        h3,
        h3 + enc_tasks(m.tasks.take(k + 1)).len() as int,
        enc_tasks(m.tasks.take(k)),
        enc_task(m.tasks[k]),
    );
}

/// Parse a full store image. Succeeds exactly on the canonical images of
/// well-formed stores, and returns the store a canonical image describes.
#[verifier::rlimit(100)]
#[verifier::loop_isolation(false)]
fn parse_store(s: &str) -> (r: Option<TaskRepository>)
    ensures
        r matches Some(repo) ==> repo@.wf() && s@ == spec_save(repo@),
        forall|m: StoreModel|
            m.wf() && s@ == spec_save(m) ==> (r matches Some(repo) && repo@ == m),
{
    let len = s.unicode_len();
    let np = match parse_num(s, len, 0) {
        Some(p) => p,
        None => {
            proof {
                assert forall|m: StoreModel| !(m.wf() && s@ == spec_save(m)) by {
                    if m.wf() && s@ == spec_save(m) {
                        lemma_save_pieces(s@, m);
                    }
                }
            }
            return None;
        },
    };
    let next_id = np.0;
    let h1 = np.1;
    if !expect_char(s, len, h1, ' ') {
        proof {
            assert forall|m: StoreModel| !(m.wf() && s@ == spec_save(m)) by {
                if m.wf() && s@ == spec_save(m) {
                    lemma_save_pieces(s@, m);
                }
            }
        }
        return None;
    }
    let cp = match parse_num(s, len, h1 + 1) {
        Some(p) => p,
        None => {
            proof {
                assert forall|m: StoreModel| !(m.wf() && s@ == spec_save(m)) by {
                    if m.wf() && s@ == spec_save(m) {
                        lemma_save_pieces(s@, m);
                        let l1 = dec_rep(m.next_id as nat).len() as int;
                        let l2 = dec_rep(m.tasks.len()).len() as int;
                        let cnt = m.tasks.len() as usize;
                        assert(num_at(s@, l1 + 1, cnt as nat, l1 + 1 + l2));
                    }
                }
            }
            return None;
        },
    };
    let count = cp.0;
    let h2 = cp.1;
    if !expect_char(s, len, h2, '\n') {
        proof {
            assert forall|m: StoreModel| !(m.wf() && s@ == spec_save(m)) by {
                if m.wf() && s@ == spec_save(m) {
                    lemma_save_pieces(s@, m);
                    let l1 = dec_rep(m.next_id as nat).len() as int;
                    let l2 = dec_rep(m.tasks.len()).len() as int;
                    let cnt = m.tasks.len() as usize;
                    assert(num_at(s@, l1 + 1, cnt as nat, l1 + 1 + l2));
                }
            }
        }
        return None;
    }
    let h3 = h2 + 1;
    let mut repo = TaskRepository { tasks: Vec::new(), next_id };
    let mut last_id: usize = 0;
    let mut cur = h3;
    let mut k: usize = 0;
    proof {
        assert forall|m: StoreModel|
            m.wf() && s@ == spec_save(m) implies next_id == m.next_id && count == m.tasks.len()
            && h2 == dec_rep(m.next_id as nat).len() + 1 + dec_rep(m.tasks.len()).len() by {
            lemma_save_pieces(s@, m);
            let l1 = dec_rep(m.next_id as nat).len() as int;
            let l2 = dec_rep(m.tasks.len()).len() as int;
            let cnt = m.tasks.len() as usize;
            assert(num_at(s@, l1 + 1, cnt as nat, l1 + 1 + l2));
        }
        assert(s@.subrange(h3 as int, cur as int) =~= Seq::<char>::empty());
        assert(repo@.tasks =~= Seq::<TaskModel>::empty());
        assert(enc_tasks(repo@.tasks) =~= Seq::<char>::empty());
    }
    while k < count
        invariant
            k <= count,
            h3 <= cur <= len,
            repo.next_id == next_id,
            repo@.tasks.len() == k,
            s@.subrange(h3 as int, cur as int) == enc_tasks(repo@.tasks),
            forall|i: int, j: int|
                0 <= i < j < k ==> repo@.tasks[i].id < repo@.tasks[j].id,
            forall|i: int| 0 <= i < k ==> repo@.tasks[i].id < next_id,
            k > 0 ==> last_id == repo@.tasks[k - 1].id,
            forall|m: StoreModel|
                m.wf() && s@ == spec_save(m) ==> (repo@.tasks == m.tasks.take(k as int) && cur
                    == h3 + enc_tasks(m.tasks.take(k as int)).len()),
        decreases count - k,
    {
        let tp = match parse_task(s, len, cur) {
            Some(p) => p,
            None => {
                proof {
                    assert forall|m: StoreModel| !(m.wf() && s@ == spec_save(m)) by {
                        if m.wf() && s@ == spec_save(m) {
                            lemma_task_k_at(s@, m, k as int, h3 as int);
                        }
                    }
                }
                return None;
            },
        };
        let tid = tp.0.id;
        if tid >= next_id {
            proof {
                assert forall|m: StoreModel| !(m.wf() && s@ == spec_save(m)) by {
                    if m.wf() && s@ == spec_save(m) {
                        lemma_task_k_at(s@, m, k as int, h3 as int);
                        assert(tp.0@ == m.tasks[k as int]);
                        assert(m.tasks[k as int].id < m.next_id);
                    }
                }
            }
            return None;
        }
        if k > 0 && tid <= last_id {
            proof {
                assert forall|m: StoreModel| !(m.wf() && s@ == spec_save(m)) by {
                    if m.wf() && s@ == spec_save(m) {
                        lemma_task_k_at(s@, m, k as int, h3 as int);
                        assert(tp.0@ == m.tasks[k as int]);
                        assert(repo@.tasks[k - 1] == m.tasks.take(k as int)[k - 1]);
                        assert(m.tasks[k - 1].id < m.tasks[k as int].id);
                    }
                }
            }
            return None;
        }
        let newcur = tp.1;
        let ghost tm = tp.0@;
        let ghost prev_tasks = repo@.tasks;
        repo.tasks.push(tp.0);
        proof {
            assert(repo@.tasks =~= prev_tasks.push(tm));
            assert(enc_tasks(prev_tasks.push(tm)) == enc_tasks(prev_tasks) + enc_task(tm)) by {
                assert(prev_tasks.push(tm).drop_last() =~= prev_tasks);
                assert(prev_tasks.push(tm).last() == tm);
            };
            lemma_subrange_join(
                s@,
                h3 as int,
                cur as int,
                newcur as int,
                enc_tasks(prev_tasks),
                enc_task(tm),
            );
            assert forall|m: StoreModel|
                m.wf() && s@ == spec_save(m) implies (repo@.tasks == m.tasks.take(k + 1) && newcur
                == h3 + enc_tasks(m.tasks.take(k + 1)).len()) by {
                lemma_task_k_at(s@, m, k as int, h3 as int);
                assert(tm == m.tasks[k as int]);
                assert(m.tasks.take(k + 1) =~= m.tasks.take(k as int).push(m.tasks[k as int]));
                assert(repo@.tasks =~= m.tasks.take(k + 1));
            }
        }
        last_id = tid;
        cur = newcur;
        k = k + 1;
    }
    if cur != len {
        proof {
            assert forall|m: StoreModel| !(m.wf() && s@ == spec_save(m)) by {
                if m.wf() && s@ == spec_save(m) {
                    lemma_save_pieces(s@, m);
                    assert(m.tasks.take(count as int) =~= m.tasks);
                }
            }
        }
        return None;
    }
    proof {
        // the pieces join back into one canonical image
        assert(s@.subrange(0, h1 as int) == dec_rep(next_id as nat));
        assert(s@.subrange(h1 as int, h1 + 1) =~= seq![' ']);
        assert(s@.subrange(h1 + 1, h2 as int) == dec_rep(count as nat));
        assert(s@.subrange(h2 as int, h3 as int) =~= seq!['\n']);
        lemma_subrange_join(
            s@,
            0,
            h1 as int,
            h1 + 1,
            dec_rep(next_id as nat),
            seq![' '],
        );
        lemma_subrange_join(
            s@,
            0,
            h1 + 1,
            h2 as int,
            dec_rep(next_id as nat) + seq![' '],
            dec_rep(count as nat),
        );
        lemma_subrange_join(
            s@,
            0,
            h2 as int,
            h3 as int,
            dec_rep(next_id as nat) + seq![' '] + dec_rep(count as nat),
            seq!['\n'],
        );
        lemma_subrange_join(
            s@,
            0,
            h3 as int,
            len as int,
            dec_rep(next_id as nat) + seq![' '] + dec_rep(count as nat) + seq!['\n'],
            enc_tasks(repo@.tasks),
        );
        assert(s@.subrange(0, len as int) =~= s@);
        assert(repo@.tasks.len() == count);
        assert(spec_header(repo@) == dec_rep(next_id as nat) + seq![' '] + dec_rep(count as nat)
            + seq!['\n']);
        assert(s@ == spec_save(repo@));
        assert(repo@.wf());
        assert forall|m: StoreModel|
            m.wf() && s@ == spec_save(m) implies repo@ == m by {
            assert(m.tasks.take(count as int) =~= m.tasks);
            assert(repo@.tasks == m.tasks);
            assert(repo@ =~= m);
        }
    }
    Some(repo)
}

impl TaskRepository {
    /// Render the whole store as its canonical text image.
    pub fn save_to_string(&self) -> (r: String)
        ensures
            r@ == spec_save(self@),
    {
        let ghost m = self@;
        let mut out = String::new();
        push_num(&mut out, self.next_id);
        push_space(&mut out);
        push_num(&mut out, self.tasks.len());
        push_newline(&mut out);
        proof {
            assert(out@ =~= spec_header(m));
            assert(m.tasks.take(0) =~= Seq::<TaskModel>::empty());
            assert(out@ =~= spec_header(m) + enc_tasks(m.tasks.take(0)));
        }
        let n = self.tasks.len();
        let mut i: usize = 0;
        while i < n
            invariant
                m == self@,
                n == self.tasks.len(),
                i <= n,
                out@ == spec_header(m) + enc_tasks(m.tasks.take(i as int)),
            decreases n - i,
        {
            let ghost before = out@;
            push_task(&mut out, &self.tasks[i]);
            proof {
                assert(self.tasks[i as int]@ == m.tasks[i as int]);
                assert(m.tasks.take(i + 1).drop_last() =~= m.tasks.take(i as int));
                assert(m.tasks.take(i + 1).last() == m.tasks[i as int]);
                assert(out@ =~= spec_header(m) + enc_tasks(m.tasks.take(i + 1)));
            }
            i = i + 1;
        }
        proof {
            assert(m.tasks.take(n as int) =~= m.tasks);
            assert(out@ =~= spec_save(m));
        }
        out
    }

    /// Rebuild a store from a text image. The canonical image of a
    /// well-formed store loads back to exactly that store (the round-trip
    /// law); any other text yields the empty store.
    pub fn load_from_str(s: &str) -> (r: TaskRepository)
        ensures
            r@.wf(),
            forall|m: StoreModel| m.wf() && s@ == spec_save(m) ==> r@ == m,
            (forall|m: StoreModel| !(m.wf() && s@ == spec_save(m))) ==> r@ == StoreModel::empty(),
    {
        match parse_store(s) {
            Some(repo) => {
                proof {
                    assert(repo@.wf() && s@ == spec_save(repo@));
                }
                repo
            },
            None => TaskRepository::new(),
        }
    }

    /// Rebuild a store from the contents of the persisted file, or from
    /// nothing when the file was missing or unreadable: either way a usable
    /// store comes back, empty unless the contents are a canonical image.
    pub fn load_from_contents(contents: Option<&str>) -> (r: TaskRepository)
        ensures
            r@.wf(),
            contents is None ==> r@ == StoreModel::empty(),
            forall|m: StoreModel|
                (contents matches Some(s) && m.wf() && s@ == #[trigger] spec_save(m)) ==> r@ == m,
            (forall|m: StoreModel|
                !(contents matches Some(s) && m.wf() && s@ == #[trigger] spec_save(m))) ==> r@
                == StoreModel::empty(),
    {
        match contents {
            Some(s) => TaskRepository::load_from_str(s),
            None => TaskRepository::new(),
        }
    }
}

} // verus!
