//! The byte format of the persisted operation state.
//!
//! The state file is JSON with a fixed shape: a tagged object whose `kind`
//! is `sync` or `push`, snake-case keys in a fixed order, compact spacing.
//! The encoder and parser below are exact inverses on that canonical form;
//! the spec functions define both the bytes a state encodes to and what any
//! byte sequence parses to.

use vstd::prelude::*;

use crate::stack::RetargetStep;
use crate::stack::SyncStep;
use crate::sync_state::LastSyncPlan;
use crate::sync_state::PushState;
use crate::sync_state::SyncState;
use crate::text::append_str;
use crate::text::append_u64;
use crate::text::dec_rep;
use vstd::utf8::encode_utf8;

verus! {

/// A byte that may appear unescaped inside a JSON string: everything but
/// control bytes; the quote and the backslash get escaped.
pub open spec fn json_plain(s: Seq<u8>) -> bool {
    forall|i: int| 0 <= i < s.len() ==> s[i] >= 0x20
}

/// The escaped form of one byte.
pub open spec fn esc_byte(b: u8) -> Seq<u8> {
    if b == 0x22 {
        seq![0x5cu8, 0x22u8]
    } else if b == 0x5c {
        seq![0x5cu8, 0x5cu8]
    } else {
        seq![b]
    }
}

/// The escaped form of a byte sequence.
pub open spec fn escape(s: Seq<u8>) -> Seq<u8>
    decreases s.len(),
{
    if s.len() == 0 {
        Seq::empty()
    } else {
        esc_byte(s[0]) + escape(s.drop_first())
    }
}

/// Escaping treats each byte on its own.
pub proof fn lemma_escape_snoc(s: Seq<u8>, c: u8)
    ensures
        escape(s.push(c)) == escape(s) + esc_byte(c),
    decreases s.len(),
{
    if s.len() == 0 {
        assert(s.push(c)[0] == c);
        assert(s.push(c).drop_first() =~= Seq::<u8>::empty());
        assert(escape(Seq::<u8>::empty()) == Seq::<u8>::empty());
        assert(escape(s.push(c)) =~= esc_byte(c));
        assert(escape(s) + esc_byte(c) =~= esc_byte(c));
    } else {
        assert(s.push(c)[0] == s[0]);
        assert(s.push(c).drop_first() =~= s.drop_first().push(c));
        lemma_escape_snoc(s.drop_first(), c);
        assert(escape(s.push(c)) == esc_byte(s[0]) + escape(s.drop_first().push(c)));
        assert(escape(s.push(c)) =~= escape(s) + esc_byte(c));
    }
}

/// The bytes of a JSON string literal holding `s`.
pub open spec fn string_enc(s: Seq<char>) -> Seq<u8> {
    seq![0x22u8] + escape(encode_utf8(s)) + seq![0x22u8]
}

/// The bytes of `null` or a JSON string.
pub open spec fn opt_string_enc(v: Option<String>) -> Seq<u8> {
    match v {
        None => encode_utf8("null"@),
        Some(s) => string_enc(s@),
    }
}

/// The bytes of `null` or a JSON number.
pub open spec fn opt_num_enc(v: Option<usize>) -> Seq<u8> {
    match v {
        None => encode_utf8("null"@),
        Some(n) => dec_rep(n as nat),
    }
}

/// The bytes of one sync step object.
pub open spec fn step_enc(s: SyncStep) -> Seq<u8> {
    encode_utf8("{\"branch\":"@) + string_enc(s.branch@) + encode_utf8(",\"old_base_ref\":"@)
        + string_enc(s.old_base_ref@) + encode_utf8(",\"new_base_ref\":"@) + string_enc(
        s.new_base_ref@,
    ) + encode_utf8("}"@)
}

/// The bytes of one retarget step object.
pub open spec fn retarget_enc(s: RetargetStep) -> Seq<u8> {
    encode_utf8("{\"branch\":"@) + string_enc(s.branch@) + encode_utf8(",\"new_base_ref\":"@)
        + string_enc(s.new_base_ref@) + encode_utf8("}"@)
}

/// The items of an array, each after a comma but the first.
pub open spec fn arr_items<T>(xs: Seq<T>, enc: spec_fn(T) -> Seq<u8>, i: int) -> Seq<u8>
    decreases xs.len() - i,
{
    if i < 0 || i >= xs.len() {
        Seq::empty()
    } else {
        (if i > 0 {
            seq![0x2cu8]
        } else {
            Seq::empty()
        }) + enc(xs[i]) + arr_items(xs, enc, i + 1)
    }
}

/// The bytes of a whole array.
pub open spec fn arr_enc<T>(xs: Seq<T>, enc: spec_fn(T) -> Seq<u8>) -> Seq<u8> {
    seq![0x5bu8] + arr_items(xs, enc, 0) + seq![0x5du8]
}

/// The bytes a sync state is stored as.
pub open spec fn sync_enc(s: SyncState) -> Seq<u8> {
    encode_utf8("{\"kind\":\"sync\",\"steps\":"@) + arr_enc(s.steps@, |x: SyncStep| step_enc(x))
        + encode_utf8(",\"completed_steps\":"@) + dec_rep(s.completed_steps as nat) + encode_utf8(
        ",\"failed_step\":"@,
    ) + opt_num_enc(s.failed_step) + encode_utf8(",\"failed_step_branch_head\":"@)
        + opt_string_enc(s.failed_step_branch_head) + encode_utf8("}"@)
}

/// The bytes a push state is stored as.
pub open spec fn push_enc(p: PushState) -> Seq<u8> {
    encode_utf8("{\"kind\":\"push\",\"push_branches\":"@) + arr_enc(
        p.push_branches@,
        |x: String| string_enc(x@),
    ) + encode_utf8(",\"completed_pushes\":"@) + dec_rep(p.completed_pushes as nat) + encode_utf8(
        ",\"retargets\":"@,
    ) + arr_enc(p.retargets@, |x: RetargetStep| retarget_enc(x)) + encode_utf8(
        ",\"completed_retargets\":"@,
    ) + dec_rep(p.completed_retargets as nat) + encode_utf8("}"@)
}

/// The bytes a cached sync plan is stored as.
pub open spec fn plan_enc(p: LastSyncPlan) -> Seq<u8> {
    encode_utf8("{\"default_branch\":"@) + string_enc(p.default_branch@) + encode_utf8(
        ",\"retargets\":"@,
    ) + arr_enc(p.retargets@, |x: RetargetStep| retarget_enc(x)) + encode_utf8("}"@)
}

/// Whether a string can be stored: no control bytes. Branch names never
/// carry them — the revision-control tool refuses such names.
pub open spec fn plain_str(s: Seq<char>) -> bool {
    json_plain(encode_utf8(s))
}

/// Every string in the sync state can be stored.
pub open spec fn sync_plain(s: SyncState) -> bool {
    &&& forall|i: int|
        0 <= i < s.steps@.len() ==> {
            let st = #[trigger] s.steps@[i];
            plain_str(st.branch@) && plain_str(st.old_base_ref@) && plain_str(st.new_base_ref@)
        }
    &&& match s.failed_step_branch_head {
        Some(h) => plain_str(h@),
        None => true,
    }
}

/// Every string in the push state can be stored.
pub open spec fn push_plain(p: PushState) -> bool {
    &&& forall|i: int| 0 <= i < p.push_branches@.len() ==> plain_str(#[trigger] p.push_branches@[i]@)
    &&& forall|i: int|
        0 <= i < p.retargets@.len() ==> {
            let st = #[trigger] p.retargets@[i];
            plain_str(st.branch@) && plain_str(st.new_base_ref@)
        }
}

/// Every string in the cached plan can be stored.
pub open spec fn plan_plain(p: LastSyncPlan) -> bool {
    &&& plain_str(p.default_branch@)
    &&& forall|i: int|
        0 <= i < p.retargets@.len() ==> {
            let st = #[trigger] p.retargets@[i];
            plain_str(st.branch@) && plain_str(st.new_base_ref@)
        }
}

/// Appends the JSON string literal for `s`, reporting whether `s` can be
/// stored at all; on `false` nothing is appended.
fn append_json_string(out: &mut Vec<u8>, s: &str) -> (ok: bool)
    ensures
        ok == plain_str(s@),
        ok ==> final(out)@ == old(out)@ + string_enc(s@),
        !ok ==> final(out)@ == old(out)@,
{
    let b: &[u8] = s.as_bytes();
    let n: usize = b.len();
    let mut i: usize = 0;
    while i < n
        invariant
            i <= n,
            n == b@.len(),
            b@ == encode_utf8(s@),
            forall|k: int| 0 <= k < i ==> b@[k] >= 0x20,
        decreases n - i,
    {
        if b[i] < 0x20 {
            return false;
        }
        i = i + 1;
    }
    out.push(0x22u8);
    let mut j: usize = 0;
    let ghost mid = old(out)@ + seq![0x22u8];
    while j < n
        invariant
            j <= n,
            n == b@.len(),
            b@ == encode_utf8(s@),
            out@ == mid + escape(b@.take(j as int)),
        decreases n - j,
    {
        let ghost pre = b@.take(j as int);
        let c: u8 = b[j];
        if c == 0x22 {
            out.push(0x5cu8);
            out.push(0x22u8);
        } else if c == 0x5c {
            out.push(0x5cu8);
            out.push(0x5cu8);
        } else {
            out.push(c);
        }
        j = j + 1;
        proof {
            lemma_escape_snoc(pre, c);
            assert(b@.take(j as int) =~= pre.push(c));
            assert(out@ =~= mid + escape(b@.take(j as int)));
        }
    }
    out.push(0x22u8);
    proof {
        assert(b@.take(n as int) =~= b@);
        assert(out@ =~= old(out)@ + string_enc(s@));
    }
    true
}

/// Appends `null` or the JSON string for the value.
fn append_opt_json_string(out: &mut Vec<u8>, v: &Option<String>) -> (ok: bool)
    ensures
        ok == match v {
            Some(s) => plain_str(s@),
            None => true,
        },
        ok ==> final(out)@ == old(out)@ + opt_string_enc(*v),
        !ok ==> final(out)@ == old(out)@,
{
    match v {
        None => {
            append_str(out, "null");
            true
        },
        Some(s) => append_json_string(out, s.as_str()),
    }
}

/// Appends `null` or the decimal for the value.
fn append_opt_num(out: &mut Vec<u8>, v: &Option<usize>)
    ensures
        final(out)@ == old(out)@ + opt_num_enc(*v),
{
    match v {
        None => append_str(out, "null"),
        Some(n) => append_u64(out, *n as u64),
    }
}

/// Appends one sync step object.
fn append_step(out: &mut Vec<u8>, s: &SyncStep) -> (ok: bool)
    ensures
        ok == (plain_str(s.branch@) && plain_str(s.old_base_ref@) && plain_str(s.new_base_ref@)),
        ok ==> final(out)@ == old(out)@ + step_enc(*s),
{
    let ghost start = out@.len() as int;
    append_str(out, "{\"branch\":");
    if !append_json_string(out, s.branch.as_str()) {
        return false;
    }
    append_str(out, ",\"old_base_ref\":");
    if !append_json_string(out, s.old_base_ref.as_str()) {
        return false;
    }
    append_str(out, ",\"new_base_ref\":");
    if !append_json_string(out, s.new_base_ref.as_str()) {
        return false;
    }
    append_str(out, "}");
    proof {
        assert(out@ =~= old(out)@ + step_enc(*s));
    }
    true
}

/// Appends one retarget step object.
fn append_retarget(out: &mut Vec<u8>, s: &RetargetStep) -> (ok: bool)
    ensures
        ok == (plain_str(s.branch@) && plain_str(s.new_base_ref@)),
        ok ==> final(out)@ == old(out)@ + retarget_enc(*s),
{
    append_str(out, "{\"branch\":");
    if !append_json_string(out, s.branch.as_str()) {
        return false;
    }
    append_str(out, ",\"new_base_ref\":");
    if !append_json_string(out, s.new_base_ref.as_str()) {
        return false;
    }
    append_str(out, "}");
    proof {
        assert(out@ =~= old(out)@ + retarget_enc(*s));
    }
    true
}

/// Appends the array of sync steps.
fn append_steps(out: &mut Vec<u8>, steps: &Vec<SyncStep>) -> (ok: bool)
    ensures
        ok == (forall|i: int|
            0 <= i < steps@.len() ==> {
                let st = #[trigger] steps@[i];
                plain_str(st.branch@) && plain_str(st.old_base_ref@) && plain_str(
                    st.new_base_ref@,
                )
            }),
        ok ==> final(out)@ == old(out)@ + arr_enc(steps@, |x: SyncStep| step_enc(x)),
{
    let ghost enc = |x: SyncStep| step_enc(x);
    out.push(0x5bu8);
    let n: usize = steps.len();
    let mut i: usize = 0;
    let ghost mid = old(out)@ + seq![0x5bu8];
    while i < n
        invariant
            i <= n,
            n == steps@.len(),
            enc == (|x: SyncStep| step_enc(x)),
            out@ + arr_items(steps@, enc, i as int) == mid + arr_items(steps@, enc, 0),
            forall|k: int|
                0 <= k < i ==> {
                    let st = #[trigger] steps@[k];
                    plain_str(st.branch@) && plain_str(st.old_base_ref@) && plain_str(
                        st.new_base_ref@,
                    )
                },
        decreases n - i,
    {
        let ghost pre = out@;
        if i > 0 {
            out.push(0x2cu8);
        }
        if !append_step(out, &steps[i]) {
            return false;
        }
        i = i + 1;
        proof {
            assert(out@ + arr_items(steps@, enc, i as int) =~= mid + arr_items(steps@, enc, 0));
        }
    }
    out.push(0x5du8);
    proof {
        assert(out@ =~= old(out)@ + arr_enc(steps@, enc));
    }
    true
}

/// Appends the array of retarget steps.
fn append_retargets(out: &mut Vec<u8>, steps: &Vec<RetargetStep>) -> (ok: bool)
    ensures
        ok == (forall|i: int|
            0 <= i < steps@.len() ==> {
                let st = #[trigger] steps@[i];
                plain_str(st.branch@) && plain_str(st.new_base_ref@)
            }),
        ok ==> final(out)@ == old(out)@ + arr_enc(steps@, |x: RetargetStep| retarget_enc(x)),
{
    let ghost enc = |x: RetargetStep| retarget_enc(x);
    out.push(0x5bu8);
    let n: usize = steps.len();
    let mut i: usize = 0;
    let ghost mid = old(out)@ + seq![0x5bu8];
    while i < n
        invariant
            i <= n,
            n == steps@.len(),
            enc == (|x: RetargetStep| retarget_enc(x)),
            out@ + arr_items(steps@, enc, i as int) == mid + arr_items(steps@, enc, 0),
            forall|k: int|
                0 <= k < i ==> {
                    let st = #[trigger] steps@[k];
                    plain_str(st.branch@) && plain_str(st.new_base_ref@)
                },
        decreases n - i,
    {
        if i > 0 {
            out.push(0x2cu8);
        }
        if !append_retarget(out, &steps[i]) {
            return false;
        }
        i = i + 1;
        proof {
            assert(out@ + arr_items(steps@, enc, i as int) =~= mid + arr_items(steps@, enc, 0));
        }
    }
    out.push(0x5du8);
    proof {
        assert(out@ =~= old(out)@ + arr_enc(steps@, enc));
    }
    true
}

/// Appends the array of branch names.
fn append_strings(out: &mut Vec<u8>, xs: &Vec<String>) -> (ok: bool)
    ensures
        ok == (forall|i: int| 0 <= i < xs@.len() ==> plain_str(#[trigger] xs@[i]@)),
        ok ==> final(out)@ == old(out)@ + arr_enc(xs@, |x: String| string_enc(x@)),
{
    let ghost enc = |x: String| string_enc(x@);
    out.push(0x5bu8);
    let n: usize = xs.len();
    let mut i: usize = 0;
    let ghost mid = old(out)@ + seq![0x5bu8];
    while i < n
        invariant
            i <= n,
            n == xs@.len(),
            enc == (|x: String| string_enc(x@)),
            out@ + arr_items(xs@, enc, i as int) == mid + arr_items(xs@, enc, 0),
            forall|k: int| 0 <= k < i ==> plain_str(#[trigger] xs@[k]@),
        decreases n - i,
    {
        if i > 0 {
            out.push(0x2cu8);
        }
        if !append_json_string(out, xs[i].as_str()) {
            return false;
        }
        i = i + 1;
        proof {
            assert(out@ + arr_items(xs@, enc, i as int) =~= mid + arr_items(xs@, enc, 0));
        }
    }
    out.push(0x5du8);
    proof {
        assert(out@ =~= old(out)@ + arr_enc(xs@, enc));
    }
    true
}

/// Encodes a sync state, unless one of its strings holds a control byte.
pub fn encode_sync(state: &SyncState) -> (r: Option<Vec<u8>>)
    ensures
        r is Some <==> sync_plain(*state),
        r matches Some(b) ==> b@ == sync_enc(*state),
{
    let mut out: Vec<u8> = Vec::new();
    append_str(&mut out, "{\"kind\":\"sync\",\"steps\":");
    if !append_steps(&mut out, &state.steps) {
        return None;
    }
    append_str(&mut out, ",\"completed_steps\":");
    append_u64(&mut out, state.completed_steps as u64);
    append_str(&mut out, ",\"failed_step\":");
    append_opt_num(&mut out, &state.failed_step);
    append_str(&mut out, ",\"failed_step_branch_head\":");
    if !append_opt_json_string(&mut out, &state.failed_step_branch_head) {
        return None;
    }
    append_str(&mut out, "}");
    proof {
        assert(out@ =~= sync_enc(*state));
    }
    Some(out)
}

/// Encodes a push state, unless one of its strings holds a control byte.
pub fn encode_push(state: &PushState) -> (r: Option<Vec<u8>>)
    ensures
        r is Some <==> push_plain(*state),
        r matches Some(b) ==> b@ == push_enc(*state),
{
    let mut out: Vec<u8> = Vec::new();
    append_str(&mut out, "{\"kind\":\"push\",\"push_branches\":");
    if !append_strings(&mut out, &state.push_branches) {
        return None;
    }
    append_str(&mut out, ",\"completed_pushes\":");
    append_u64(&mut out, state.completed_pushes as u64);
    append_str(&mut out, ",\"retargets\":");
    if !append_retargets(&mut out, &state.retargets) {
        return None;
    }
    append_str(&mut out, ",\"completed_retargets\":");
    append_u64(&mut out, state.completed_retargets as u64);
    append_str(&mut out, "}");
    proof {
        assert(out@ =~= push_enc(*state));
    }
    Some(out)
}

/// Encodes a cached sync plan, unless one of its strings holds a control
/// byte.
pub fn encode_plan(plan: &LastSyncPlan) -> (r: Option<Vec<u8>>)
    ensures
        r is Some <==> plan_plain(*plan),
        r matches Some(b) ==> b@ == plan_enc(*plan),
{
    let mut out: Vec<u8> = Vec::new();
    append_str(&mut out, "{\"default_branch\":");
    if !append_json_string(&mut out, plan.default_branch.as_str()) {
        return None;
    }
    append_str(&mut out, ",\"retargets\":");
    if !append_retargets(&mut out, &plan.retargets) {
        return None;
    }
    append_str(&mut out, "}");
    proof {
        assert(out@ =~= plan_enc(*plan));
    }
    Some(out)
}


/// A decimal digit byte.
pub open spec fn is_digit(b: u8) -> bool {
    0x30 <= b <= 0x39
}

/// Recognises exactly `lit` at `i`.
pub open spec fn sp_lit(b: Seq<u8>, i: int, lit: Seq<u8>) -> Option<int> {
    if 0 <= i && i + lit.len() <= b.len() && b.subrange(i, i + lit.len()) == lit {
        Some(i + lit.len())
    } else {
        None
    }
}

/// Parses a string body from just after the opening quote to just past the
/// closing quote, undoing the two escapes and refusing control bytes.
pub open spec fn sp_str_body(b: Seq<u8>, i: int) -> Option<(Seq<u8>, int)>
    decreases b.len() - i,
{
    if i < 0 || i >= b.len() {
        None
    } else if b[i] == 0x22 {
        Some((Seq::empty(), i + 1))
    } else if b[i] == 0x5c {
        if i + 1 < b.len() && (b[i + 1] == 0x22 || b[i + 1] == 0x5c) {
            match sp_str_body(b, i + 2) {
                None => None,
                Some((s, j)) => Some((seq![b[i + 1]] + s, j)),
            }
        } else {
            None
        }
    } else if b[i] < 0x20 {
        None
    } else {
        match sp_str_body(b, i + 1) {
            None => None,
            Some((s, j)) => Some((seq![b[i]] + s, j)),
        }
    }
}

/// Parses a JSON string literal into the character sequence it holds.
pub open spec fn sp_string(b: Seq<u8>, i: int) -> Option<(Seq<char>, int)> {
    if i < 0 || i >= b.len() || b[i] != 0x22 {
        None
    } else {
        match sp_str_body(b, i + 1) {
            None => None,
            Some((c, j)) => if vstd::utf8::valid_utf8(c) {
                Some((vstd::utf8::decode_utf8(c), j))
            } else {
                None
            },
        }
    }
}

/// Folds a digit run into a value, starting from `acc`.
pub open spec fn sp_digits(b: Seq<u8>, i: int, acc: nat) -> (nat, int)
    decreases b.len() - i,
{
    if i < 0 || i >= b.len() || !is_digit(b[i]) {
        (acc, i)
    } else {
        sp_digits(b, i + 1, acc * 10 + (b[i] - 0x30) as nat)
    }
}

/// Parses a canonical decimal number: digits without a leading zero, with a
/// value that fits the platform's word.
pub open spec fn sp_number(b: Seq<u8>, i: int) -> Option<(nat, int)> {
    if i < 0 || i >= b.len() || !is_digit(b[i]) {
        None
    } else if b[i] == 0x30 && i + 1 < b.len() && is_digit(b[i + 1]) {
        None
    } else {
        let (v, j) = sp_digits(b, i, 0);
        if v > usize::MAX as nat {
            None
        } else {
            Some((v, j))
        }
    }
}

/// Parses `null` or a number.
pub open spec fn sp_opt_number(b: Seq<u8>, i: int) -> Option<(Option<nat>, int)> {
    match sp_lit(b, i, encode_utf8("null"@)) {
        Some(j) => Some((None, j)),
        None => match sp_number(b, i) {
            None => None,
            Some((v, j)) => Some((Some(v), j)),
        },
    }
}

/// Parses `null` or a string.
pub open spec fn sp_opt_string(b: Seq<u8>, i: int) -> Option<(Option<Seq<char>>, int)> {
    match sp_lit(b, i, encode_utf8("null"@)) {
        Some(j) => Some((None, j)),
        None => match sp_string(b, i) {
            None => None,
            Some((s, j)) => Some((Some(s), j)),
        },
    }
}

/// Parses one sync step object into its three branch names.
pub open spec fn sp_step(b: Seq<u8>, i: int) -> Option<((Seq<char>, Seq<char>, Seq<char>), int)> {
    match sp_lit(b, i, encode_utf8("{\"branch\":"@)) {
        None => None,
        Some(j0) => match sp_string(b, j0) {
            None => None,
            Some((br, j1)) => match sp_lit(b, j1, encode_utf8(",\"old_base_ref\":"@)) {
                None => None,
                Some(j2) => match sp_string(b, j2) {
                    None => None,
                    Some((ob, j3)) => match sp_lit(b, j3, encode_utf8(",\"new_base_ref\":"@)) {
                        None => None,
                        Some(j4) => match sp_string(b, j4) {
                            None => None,
                            Some((nb, j5)) => match sp_lit(b, j5, encode_utf8("}"@)) {
                                None => None,
                                Some(j6) => Some(((br, ob, nb), j6)),
                            },
                        },
                    },
                },
            },
        },
    }
}

/// Parses one retarget step object into its two branch names.
pub open spec fn sp_retarget(b: Seq<u8>, i: int) -> Option<((Seq<char>, Seq<char>), int)> {
    match sp_lit(b, i, encode_utf8("{\"branch\":"@)) {
        None => None,
        Some(j0) => match sp_string(b, j0) {
            None => None,
            Some((br, j1)) => match sp_lit(b, j1, encode_utf8(",\"new_base_ref\":"@)) {
                None => None,
                Some(j2) => match sp_string(b, j2) {
                    None => None,
                    Some((nb, j3)) => match sp_lit(b, j3, encode_utf8("}"@)) {
                        None => None,
                        Some(j4) => Some(((br, nb), j4)),
                    },
                },
            },
        },
    }
}

/// Parses the non-empty tail of an array: an element, then either a comma
/// and more elements or the closing bracket.
pub open spec fn sp_arr_rest<T>(
    b: Seq<u8>,
    i: int,
    elem: spec_fn(Seq<u8>, int) -> Option<(T, int)>,
) -> Option<(Seq<T>, int)>
    decreases b.len() - i,
{
    match elem(b, i) {
        None => None,
        Some((x, j)) => {
            if j <= i || j >= b.len() {
                None
            } else if b[j] == 0x2c {
                match sp_arr_rest(b, j + 1, elem) {
                    None => None,
                    Some((xs, j2)) => Some((seq![x] + xs, j2)),
                }
            } else if b[j] == 0x5d {
                Some((seq![x], j + 1))
            } else {
                None
            }
        },
    }
}

/// Parses a whole array.
pub open spec fn sp_arr<T>(
    b: Seq<u8>,
    i: int,
    elem: spec_fn(Seq<u8>, int) -> Option<(T, int)>,
) -> Option<(Seq<T>, int)> {
    if i < 0 || i >= b.len() || b[i] != 0x5b {
        None
    } else if i + 1 < b.len() && b[i + 1] == 0x5d {
        Some((Seq::empty(), i + 2))
    } else {
        sp_arr_rest(b, i + 1, elem)
    }
}

/// Parses a whole sync record; the record must span the entire input.
pub open spec fn sp_sync(b: Seq<u8>) -> Option<
    (Seq<(Seq<char>, Seq<char>, Seq<char>)>, nat, Option<nat>, Option<Seq<char>>),
> {
    match sp_lit(b, 0, encode_utf8("{\"kind\":\"sync\",\"steps\":"@)) {
        None => None,
        Some(j0) => match sp_arr(b, j0, |bb: Seq<u8>, ii: int| sp_step(bb, ii)) {
            None => None,
            Some((steps, j1)) => match sp_lit(b, j1, encode_utf8(",\"completed_steps\":"@)) {
                None => None,
                Some(j2) => match sp_number(b, j2) {
                    None => None,
                    Some((completed, j3)) => match sp_lit(
                        b,
                        j3,
                        encode_utf8(",\"failed_step\":"@),
                    ) {
                        None => None,
                        Some(j4) => match sp_opt_number(b, j4) {
                            None => None,
                            Some((failed, j5)) => match sp_lit(
                                b,
                                j5,
                                encode_utf8(",\"failed_step_branch_head\":"@),
                            ) {
                                None => None,
                                Some(j6) => match sp_opt_string(b, j6) {
                                    None => None,
                                    Some((head, j7)) => match sp_lit(b, j7, encode_utf8("}"@)) {
                                        None => None,
                                        Some(j8) => if j8 == b.len() {
                                            Some((steps, completed, failed, head))
                                        } else {
                                            None
                                        },
                                    },
                                },
                            },
                        },
                    },
                },
            },
        },
    }
}

/// Parses a whole push record; the record must span the entire input.
pub open spec fn sp_push(b: Seq<u8>) -> Option<
    (Seq<Seq<char>>, nat, Seq<(Seq<char>, Seq<char>)>, nat),
> {
    match sp_lit(b, 0, encode_utf8("{\"kind\":\"push\",\"push_branches\":"@)) {
        None => None,
        Some(j0) => match sp_arr(b, j0, |bb: Seq<u8>, ii: int| sp_string(bb, ii)) {
            None => None,
            Some((branches, j1)) => match sp_lit(b, j1, encode_utf8(",\"completed_pushes\":"@)) {
                None => None,
                Some(j2) => match sp_number(b, j2) {
                    None => None,
                    Some((pushes, j3)) => match sp_lit(b, j3, encode_utf8(",\"retargets\":"@)) {
                        None => None,
                        Some(j4) => match sp_arr(b, j4, |bb: Seq<u8>, ii: int| sp_retarget(bb, ii)) {
                            None => None,
                            Some((retargets, j5)) => match sp_lit(
                                b,
                                j5,
                                encode_utf8(",\"completed_retargets\":"@),
                            ) {
                                None => None,
                                Some(j6) => match sp_number(b, j6) {
                                    None => None,
                                    Some((rts, j7)) => match sp_lit(b, j7, encode_utf8("}"@)) {
                                        None => None,
                                        Some(j8) => if j8 == b.len() {
                                            Some((branches, pushes, retargets, rts))
                                        } else {
                                            None
                                        },
                                    },
                                },
                            },
                        },
                    },
                },
            },
        },
    }
}

/// Parses a whole cached-plan record; the record must span the entire input.
pub open spec fn sp_plan(b: Seq<u8>) -> Option<(Seq<char>, Seq<(Seq<char>, Seq<char>)>)> {
    match sp_lit(b, 0, encode_utf8("{\"default_branch\":"@)) {
        None => None,
        Some(j0) => match sp_string(b, j0) {
            None => None,
            Some((d, j1)) => match sp_lit(b, j1, encode_utf8(",\"retargets\":"@)) {
                None => None,
                Some(j2) => match sp_arr(b, j2, |bb: Seq<u8>, ii: int| sp_retarget(bb, ii)) {
                    None => None,
                    Some((retargets, j3)) => match sp_lit(b, j3, encode_utf8("}"@)) {
                        None => None,
                        Some(j4) => if j4 == b.len() {
                            Some((d, retargets))
                        } else {
                            None
                        },
                    },
                },
            },
        },
    }
}

/// The parsed steps and the vector agree field by field.
pub open spec fn steps_match(v: Seq<SyncStep>, t: Seq<(Seq<char>, Seq<char>, Seq<char>)>) -> bool {
    &&& v.len() == t.len()
    &&& forall|i: int|
        0 <= i < v.len() ==> {
            let s = #[trigger] v[i];
            s.branch@ == t[i].0 && s.old_base_ref@ == t[i].1 && s.new_base_ref@ == t[i].2
        }
}

/// The parsed retargets and the vector agree field by field.
pub open spec fn retargets_match(v: Seq<RetargetStep>, t: Seq<(Seq<char>, Seq<char>)>) -> bool {
    &&& v.len() == t.len()
    &&& forall|i: int|
        0 <= i < v.len() ==> {
            let s = #[trigger] v[i];
            s.branch@ == t[i].0 && s.new_base_ref@ == t[i].1
        }
}

/// An optional count and its parsed form agree.
pub open spec fn opt_num_match(v: Option<usize>, t: Option<nat>) -> bool {
    match t {
        None => v is None,
        Some(n) => v matches Some(x) && x as nat == n,
    }
}

/// An optional string and its parsed form agree.
pub open spec fn opt_str_match(v: Option<String>, t: Option<Seq<char>>) -> bool {
    match t {
        None => v is None,
        Some(c) => v matches Some(x) && x@ == c,
    }
}

/// A matched string body ends past where it started and within the input.
proof fn lemma_sp_str_body_bounds(b: Seq<u8>, i: int)
    ensures
        sp_str_body(b, i) matches Some(p) ==> i < p.1 <= b.len(),
    decreases b.len() - i,
{
    if 0 <= i < b.len() {
        if b[i] == 0x5c {
            if i + 1 < b.len() && (b[i + 1] == 0x22 || b[i + 1] == 0x5c) {
                lemma_sp_str_body_bounds(b, i + 2);
            }
        } else {
            lemma_sp_str_body_bounds(b, i + 1);
        }
    }
}

/// A matched string ends past where it started and within the input.
proof fn lemma_sp_string_bounds(b: Seq<u8>, i: int)
    ensures
        sp_string(b, i) matches Some(p) ==> i < p.1 <= b.len(),
{
    lemma_sp_str_body_bounds(b, i + 1);
}

/// A digit run's value is at least the accumulator it started from.
proof fn lemma_sp_digits_ge(b: Seq<u8>, i: int, acc: nat)
    ensures
        sp_digits(b, i, acc).0 >= acc,
    decreases b.len() - i,
{
    if 0 <= i < b.len() && is_digit(b[i]) {
        lemma_sp_digits_ge(b, i + 1, acc * 10 + (b[i] - 0x30) as nat);
    }
}

/// A matched step object ends past where it started and within the input.
proof fn lemma_sp_step_bounds(b: Seq<u8>, i: int)
    ensures
        sp_step(b, i) matches Some(p) ==> i < p.1 <= b.len(),
{
    if sp_step(b, i) is Some {
        let lit0 = encode_utf8("{\"branch\":"@);
        let j0 = sp_lit(b, i, lit0).unwrap();
        lemma_sp_string_bounds(b, j0);
        let j1 = sp_string(b, j0).unwrap().1;
        let j2 = sp_lit(b, j1, encode_utf8(",\"old_base_ref\":"@)).unwrap();
        lemma_sp_string_bounds(b, j2);
        let j3 = sp_string(b, j2).unwrap().1;
        let j4 = sp_lit(b, j3, encode_utf8(",\"new_base_ref\":"@)).unwrap();
        lemma_sp_string_bounds(b, j4);
    }
}

/// A matched retarget object ends past where it started and within the
/// input.
proof fn lemma_sp_retarget_bounds(b: Seq<u8>, i: int)
    ensures
        sp_retarget(b, i) matches Some(p) ==> i < p.1 <= b.len(),
{
    if sp_retarget(b, i) is Some {
        let j0 = sp_lit(b, i, encode_utf8("{\"branch\":"@)).unwrap();
        lemma_sp_string_bounds(b, j0);
        let j1 = sp_string(b, j0).unwrap().1;
        let j2 = sp_lit(b, j1, encode_utf8(",\"new_base_ref\":"@)).unwrap();
        lemma_sp_string_bounds(b, j2);
    }
}

/// Recognises `lit` at `i`.
fn p_lit(b: &Vec<u8>, i: usize, lit: &str) -> (r: Option<usize>)
    ensures
        match sp_lit(b@, i as int, encode_utf8(lit@)) {
            Some(j) => (r matches Some(x) && x as int == j),
            None => r is None,
        },
{
    let lb: &[u8] = lit.as_bytes();
    let ll: usize = lb.len();
    let bl: usize = b.len();
    if i > bl || ll > bl - i {
        return None;
    }
    let mut k: usize = 0;
    while k < ll
        invariant
            k <= ll,
            i + ll <= bl,
            bl == b@.len(),
            ll == lb@.len(),
            lb@ == encode_utf8(lit@),
            forall|t: int| 0 <= t < k ==> b@[i + t] == lb@[t],
        decreases ll - k,
    {
        if b[i + k] != lb[k] {
            proof {
                assert(b@.subrange(i as int, i + ll as int)[k as int] == b@[i + k]);
                assert(b@.subrange(i as int, i + ll as int) != encode_utf8(lit@));
            }
            return None;
        }
        k = k + 1;
    }
    proof {
        assert(b@.subrange(i as int, i + ll as int) =~= encode_utf8(lit@));
    }
    Some(i + ll)
}

/// Parses a JSON string literal.
fn p_string(b: &Vec<u8>, i: usize) -> (r: Option<(String, usize)>)
    ensures
        match sp_string(b@, i as int) {
            Some(p) => (r matches Some(q) && q.0@ == p.0 && q.1 as int == p.1),
            None => r is None,
        },
{
    let bl: usize = b.len();
    if i >= bl || b[i] != 0x22 {
        return None;
    }
    let mut cur: usize = i + 1;
    let mut content: Vec<u8> = Vec::new();
    loop
        invariant
            i + 1 <= cur <= bl,
            bl == b@.len(),
            i < bl,
            b@[i as int] == 0x22,
            match sp_str_body(b@, cur as int) {
                Some(p) => sp_str_body(b@, i + 1) == Some::<(Seq<u8>, int)>((
                    content@ + p.0,
                    p.1,
                )),
                None => sp_str_body(b@, i + 1) is None,
            },
        decreases bl - cur,
    {
        if cur >= bl {
            return None;
        }
        let c: u8 = b[cur];
        if c == 0x22 {
            proof {
                assert(sp_str_body(b@, cur as int) == Some::<(Seq<u8>, int)>((
                    Seq::empty(),
                    cur + 1,
                )));
                assert(content@ + Seq::<u8>::empty() =~= content@);
            }
            let ghost cv = content@;
            let s = match crate::text::bytes_into_string(content) {
                Some(s) => s,
                None => {
                    return None;
                },
            };
            proof {
                vstd::utf8::encode_utf8_decode_utf8(s@);
            }
            return Some((s, cur + 1));
        }
        let ghost pre = content@;
        if c == 0x5c {
            if cur + 1 < bl && (b[cur + 1] == 0x22 || b[cur + 1] == 0x5c) {
                content.push(b[cur + 1]);
                cur = cur + 2;
                proof {
                    assert(content@ =~= pre.push(b@[cur - 1]));
                    assert forall|p: (Seq<u8>, int)|
                        sp_str_body(b@, cur as int) == Some::<(Seq<u8>, int)>(p) implies sp_str_body(
                        b@,
                        i + 1,
                    ) == Some::<(Seq<u8>, int)>((content@ + p.0, p.1)) by {
                        assert(pre + (seq![b@[cur - 1]] + p.0) =~= content@ + p.0);
                    };
                }
            } else {
                return None;
            }
        } else if c < 0x20 {
            return None;
        } else {
            content.push(c);
            cur = cur + 1;
            proof {
                assert(content@ =~= pre.push(c));
                assert forall|p: (Seq<u8>, int)|
                    sp_str_body(b@, cur as int) == Some::<(Seq<u8>, int)>(p) implies sp_str_body(
                    b@,
                    i + 1,
                ) == Some::<(Seq<u8>, int)>((content@ + p.0, p.1)) by {
                    assert(pre + (seq![c] + p.0) =~= content@ + p.0);
                };
            }
        }
    }
}

/// Parses a canonical decimal number.
fn p_number(b: &Vec<u8>, i: usize) -> (r: Option<(usize, usize)>)
    ensures
        match sp_number(b@, i as int) {
            Some(p) => (r matches Some(q) && q.0 as nat == p.0 && q.1 as int == p.1),
            None => r is None,
        },
{
    let bl: usize = b.len();
    if i >= bl || b[i] < 0x30 || b[i] > 0x39 {
        return None;
    }
    if b[i] == 0x30 && i + 1 < bl && b[i + 1] >= 0x30 && b[i + 1] <= 0x39 {
        return None;
    }
    let mut acc: usize = 0;
    let mut cur: usize = i;
    while cur < bl && b[cur] >= 0x30 && b[cur] <= 0x39
        invariant
            i <= cur <= bl,
            bl == b@.len(),
            sp_digits(b@, i as int, 0) == sp_digits(b@, cur as int, acc as nat),
        decreases bl - cur,
    {
        let d: u8 = b[cur] - 0x30;
        let acc10: usize = match acc.checked_mul(10) {
            Some(x) => x,
            None => {
                proof {
                    lemma_sp_digits_ge(b@, cur + 1, acc as nat * 10 + d as nat);
                }
                return None;
            },
        };
        let acc2: usize = match acc10.checked_add(d as usize) {
            Some(x) => x,
            None => {
                proof {
                    lemma_sp_digits_ge(b@, cur + 1, acc as nat * 10 + d as nat);
                }
                return None;
            },
        };
        acc = acc2;
        cur = cur + 1;
    }
    Some((acc, cur))
}

/// Parses `null` or a number.
fn p_opt_number(b: &Vec<u8>, i: usize) -> (r: Option<(Option<usize>, usize)>)
    ensures
        match sp_opt_number(b@, i as int) {
            Some(p) => (r matches Some(q) && opt_num_match(q.0, p.0) && q.1 as int == p.1),
            None => r is None,
        },
{
    match p_lit(b, i, "null") {
        Some(j) => Some((None, j)),
        None => match p_number(b, i) {
            Some((v, j)) => Some((Some(v), j)),
            None => None,
        },
    }
}

/// Parses `null` or a string.
fn p_opt_string(b: &Vec<u8>, i: usize) -> (r: Option<(Option<String>, usize)>)
    ensures
        match sp_opt_string(b@, i as int) {
            Some(p) => (r matches Some(q) && opt_str_match(q.0, p.0) && q.1 as int == p.1),
            None => r is None,
        },
{
    match p_lit(b, i, "null") {
        Some(j) => Some((None, j)),
        None => match p_string(b, i) {
            Some((s, j)) => Some((Some(s), j)),
            None => None,
        },
    }
}

/// Parses one sync step object.
fn p_step(b: &Vec<u8>, i: usize) -> (r: Option<(SyncStep, usize)>)
    ensures
        match sp_step(b@, i as int) {
            Some(p) => (r matches Some(q) && q.0.branch@ == p.0.0 && q.0.old_base_ref@ == p.0.1
                && q.0.new_base_ref@ == p.0.2 && q.1 as int == p.1),
            None => r is None,
        },
{
    let j0 = match p_lit(b, i, "{\"branch\":") {
        Some(j) => j,
        None => {
            return None;
        },
    };
    let (branch, j1) = match p_string(b, j0) {
        Some(p) => p,
        None => {
            return None;
        },
    };
    let j2 = match p_lit(b, j1, ",\"old_base_ref\":") {
        Some(j) => j,
        None => {
            return None;
        },
    };
    let (old_base_ref, j3) = match p_string(b, j2) {
        Some(p) => p,
        None => {
            return None;
        },
    };
    let j4 = match p_lit(b, j3, ",\"new_base_ref\":") {
        Some(j) => j,
        None => {
            return None;
        },
    };
    let (new_base_ref, j5) = match p_string(b, j4) {
        Some(p) => p,
        None => {
            return None;
        },
    };
    let j6 = match p_lit(b, j5, "}") {
        Some(j) => j,
        None => {
            return None;
        },
    };
    Some((SyncStep { branch, old_base_ref, new_base_ref }, j6))
}

/// Parses one retarget step object.
fn p_retarget(b: &Vec<u8>, i: usize) -> (r: Option<(RetargetStep, usize)>)
    ensures
        match sp_retarget(b@, i as int) {
            Some(p) => (r matches Some(q) && q.0.branch@ == p.0.0 && q.0.new_base_ref@ == p.0.1
                && q.1 as int == p.1),
            None => r is None,
        },
{
    let j0 = match p_lit(b, i, "{\"branch\":") {
        Some(j) => j,
        None => {
            return None;
        },
    };
    let (branch, j1) = match p_string(b, j0) {
        Some(p) => p,
        None => {
            return None;
        },
    };
    let j2 = match p_lit(b, j1, ",\"new_base_ref\":") {
        Some(j) => j,
        None => {
            return None;
        },
    };
    let (new_base_ref, j3) = match p_string(b, j2) {
        Some(p) => p,
        None => {
            return None;
        },
    };
    let j4 = match p_lit(b, j3, "}") {
        Some(j) => j,
        None => {
            return None;
        },
    };
    Some((RetargetStep { branch, new_base_ref }, j4))
}

/// Parses the non-empty tail of a step array.
fn p_steps_rest(b: &Vec<u8>, i: usize) -> (r: Option<(Vec<SyncStep>, usize)>)
    ensures
        match sp_arr_rest(b@, i as int, |bb: Seq<u8>, ii: int| sp_step(bb, ii)) {
            Some(p) => (r matches Some(q) && steps_match(q.0@, p.0) && q.1 as int == p.1),
            None => r is None,
        },
    decreases b@.len() - i,
{
    let (step, j) = match p_step(b, i) {
        Some(p) => p,
        None => {
            return None;
        },
    };
    proof {
        lemma_sp_step_bounds(b@, i as int);
    }
    if j >= b.len() {
        return None;
    }
    if b[j] == 0x2c {
        match p_steps_rest(b, j + 1) {
            Some((mut xs, j2)) => {
                xs.insert(0, step);
                proof {
                    let t = sp_arr_rest(
                        b@,
                        i as int,
                        |bb: Seq<u8>, ii: int| sp_step(bb, ii),
                    ).unwrap().0;
                    assert(steps_match(xs@, t));
                }
                Some((xs, j2))
            },
            None => None,
        }
    } else if b[j] == 0x5d {
        let mut v: Vec<SyncStep> = Vec::new();
        v.push(step);
        proof {
            let t = sp_arr_rest(b@, i as int, |bb: Seq<u8>, ii: int| sp_step(bb, ii)).unwrap().0;
            assert(steps_match(v@, t));
        }
        Some((v, j + 1))
    } else {
        None
    }
}

/// Parses the non-empty tail of a retarget array.
fn p_retargets_rest(b: &Vec<u8>, i: usize) -> (r: Option<(Vec<RetargetStep>, usize)>)
    ensures
        match sp_arr_rest(b@, i as int, |bb: Seq<u8>, ii: int| sp_retarget(bb, ii)) {
            Some(p) => (r matches Some(q) && retargets_match(q.0@, p.0) && q.1 as int == p.1),
            None => r is None,
        },
    decreases b@.len() - i,
{
    let (step, j) = match p_retarget(b, i) {
        Some(p) => p,
        None => {
            return None;
        },
    };
    proof {
        lemma_sp_retarget_bounds(b@, i as int);
    }
    if j >= b.len() {
        return None;
    }
    if b[j] == 0x2c {
        match p_retargets_rest(b, j + 1) {
            Some((mut xs, j2)) => {
                xs.insert(0, step);
                proof {
                    let t = sp_arr_rest(
                        b@,
                        i as int,
                        |bb: Seq<u8>, ii: int| sp_retarget(bb, ii),
                    ).unwrap().0;
                    assert(retargets_match(xs@, t));
                }
                Some((xs, j2))
            },
            None => None,
        }
    } else if b[j] == 0x5d {
        let mut v: Vec<RetargetStep> = Vec::new();
        v.push(step);
        proof {
            let t = sp_arr_rest(
                b@,
                i as int,
                |bb: Seq<u8>, ii: int| sp_retarget(bb, ii),
            ).unwrap().0;
            assert(retargets_match(v@, t));
        }
        Some((v, j + 1))
    } else {
        None
    }
}

/// Parses the non-empty tail of a string array.
fn p_strings_rest(b: &Vec<u8>, i: usize) -> (r: Option<(Vec<String>, usize)>)
    ensures
        match sp_arr_rest(b@, i as int, |bb: Seq<u8>, ii: int| sp_string(bb, ii)) {
            Some(p) => (r matches Some(q) && crate::text::string_views(q.0@) == p.0 && q.1 as int == p.1),
            None => r is None,
        },
    decreases b@.len() - i,
{
    let (x, j) = match p_string(b, i) {
        Some(p) => p,
        None => {
            return None;
        },
    };
    proof {
        lemma_sp_string_bounds(b@, i as int);
    }
    if j >= b.len() {
        return None;
    }
    if b[j] == 0x2c {
        match p_strings_rest(b, j + 1) {
            Some((mut xs, j2)) => {
                xs.insert(0, x);
                proof {
                    let t = sp_arr_rest(
                        b@,
                        i as int,
                        |bb: Seq<u8>, ii: int| sp_string(bb, ii),
                    ).unwrap().0;
                    assert(crate::text::string_views(xs@) =~= t);
                }
                Some((xs, j2))
            },
            None => None,
        }
    } else if b[j] == 0x5d {
        let mut v: Vec<String> = Vec::new();
        v.push(x);
        proof {
            let t = sp_arr_rest(b@, i as int, |bb: Seq<u8>, ii: int| sp_string(bb, ii)).unwrap().0;
            assert(crate::text::string_views(v@) =~= t);
        }
        Some((v, j + 1))
    } else {
        None
    }
}

/// Parses a whole step array.
fn p_steps(b: &Vec<u8>, i: usize) -> (r: Option<(Vec<SyncStep>, usize)>)
    ensures
        match sp_arr(b@, i as int, |bb: Seq<u8>, ii: int| sp_step(bb, ii)) {
            Some(p) => (r matches Some(q) && steps_match(q.0@, p.0) && q.1 as int == p.1),
            None => r is None,
        },
{
    let bl: usize = b.len();
    if i >= bl || b[i] != 0x5b {
        return None;
    }
    if i + 1 < bl && b[i + 1] == 0x5d {
        let v: Vec<SyncStep> = Vec::new();
        return Some((v, i + 2));
    }
    p_steps_rest(b, i + 1)
}

/// Parses a whole retarget array.
fn p_retargets(b: &Vec<u8>, i: usize) -> (r: Option<(Vec<RetargetStep>, usize)>)
    ensures
        match sp_arr(b@, i as int, |bb: Seq<u8>, ii: int| sp_retarget(bb, ii)) {
            Some(p) => (r matches Some(q) && retargets_match(q.0@, p.0) && q.1 as int == p.1),
            None => r is None,
        },
{
    let bl: usize = b.len();
    if i >= bl || b[i] != 0x5b {
        return None;
    }
    if i + 1 < bl && b[i + 1] == 0x5d {
        let v: Vec<RetargetStep> = Vec::new();
        return Some((v, i + 2));
    }
    p_retargets_rest(b, i + 1)
}

/// Parses a whole string array.
fn p_strings(b: &Vec<u8>, i: usize) -> (r: Option<(Vec<String>, usize)>)
    ensures
        match sp_arr(b@, i as int, |bb: Seq<u8>, ii: int| sp_string(bb, ii)) {
            Some(p) => (r matches Some(q) && crate::text::string_views(q.0@) == p.0 && q.1 as int == p.1),
            None => r is None,
        },
{
    let bl: usize = b.len();
    if i >= bl || b[i] != 0x5b {
        return None;
    }
    if i + 1 < bl && b[i + 1] == 0x5d {
        let v: Vec<String> = Vec::new();
        proof {
            assert(crate::text::string_views(v@) =~= Seq::<Seq<char>>::empty());
        }
        return Some((v, i + 2));
    }
    p_strings_rest(b, i + 1)
}

/// Parses the bytes as a sync record.
pub fn parse_sync(b: &Vec<u8>) -> (r: Option<SyncState>)
    ensures
        match sp_sync(b@) {
            Some(t) => (r matches Some(s) && steps_match(s.steps@, t.0) && s.completed_steps
                as nat == t.1 && opt_num_match(s.failed_step, t.2) && opt_str_match(
                s.failed_step_branch_head,
                t.3,
            )),
            None => r is None,
        },
{
    let j0 = match p_lit(b, 0, "{\"kind\":\"sync\",\"steps\":") {
        Some(j) => j,
        None => {
            return None;
        },
    };
    let (steps, j1) = match p_steps(b, j0) {
        Some(p) => p,
        None => {
            return None;
        },
    };
    let j2 = match p_lit(b, j1, ",\"completed_steps\":") {
        Some(j) => j,
        None => {
            return None;
        },
    };
    let (completed_steps, j3) = match p_number(b, j2) {
        Some(p) => p,
        None => {
            return None;
        },
    };
    let j4 = match p_lit(b, j3, ",\"failed_step\":") {
        Some(j) => j,
        None => {
            return None;
        },
    };
    let (failed_step, j5) = match p_opt_number(b, j4) {
        Some(p) => p,
        None => {
            return None;
        },
    };
    let j6 = match p_lit(b, j5, ",\"failed_step_branch_head\":") {
        Some(j) => j,
        None => {
            return None;
        },
    };
    let (failed_step_branch_head, j7) = match p_opt_string(b, j6) {
        Some(p) => p,
        None => {
            return None;
        },
    };
    let j8 = match p_lit(b, j7, "}") {
        Some(j) => j,
        None => {
            return None;
        },
    };
    if j8 != b.len() {
        return None;
    }
    Some(SyncState { steps, completed_steps, failed_step, failed_step_branch_head })
}

/// Parses the bytes as a push record.
pub fn parse_push(b: &Vec<u8>) -> (r: Option<PushState>)
    ensures
        match sp_push(b@) {
            Some(t) => (r matches Some(s) && crate::text::string_views(s.push_branches@) == t.0
                && s.completed_pushes as nat == t.1 && retargets_match(s.retargets@, t.2)
                && s.completed_retargets as nat == t.3),
            None => r is None,
        },
{
    let j0 = match p_lit(b, 0, "{\"kind\":\"push\",\"push_branches\":") {
        Some(j) => j,
        None => {
            return None;
        },
    };
    let (push_branches, j1) = match p_strings(b, j0) {
        Some(p) => p,
        None => {
            return None;
        },
    };
    let j2 = match p_lit(b, j1, ",\"completed_pushes\":") {
        Some(j) => j,
        None => {
            return None;
        },
    };
    let (completed_pushes, j3) = match p_number(b, j2) {
        Some(p) => p,
        None => {
            return None;
        },
    };
    let j4 = match p_lit(b, j3, ",\"retargets\":") {
        Some(j) => j,
        None => {
            return None;
        },
    };
    let (retargets, j5) = match p_retargets(b, j4) {
        Some(p) => p,
        None => {
            return None;
        },
    };
    let j6 = match p_lit(b, j5, ",\"completed_retargets\":") {
        Some(j) => j,
        None => {
            return None;
        },
    };
    let (completed_retargets, j7) = match p_number(b, j6) {
        Some(p) => p,
        None => {
            return None;
        },
    };
    let j8 = match p_lit(b, j7, "}") {
        Some(j) => j,
        None => {
            return None;
        },
    };
    if j8 != b.len() {
        return None;
    }
    Some(PushState { push_branches, completed_pushes, retargets, completed_retargets })
}

/// Parses the bytes as a cached-plan record.
pub fn parse_plan(b: &Vec<u8>) -> (r: Option<LastSyncPlan>)
    ensures
        match sp_plan(b@) {
            Some(t) => (r matches Some(p) && p.default_branch@ == t.0 && retargets_match(
                p.retargets@,
                t.1,
            )),
            None => r is None,
        },
{
    let j0 = match p_lit(b, 0, "{\"default_branch\":") {
        Some(j) => j,
        None => {
            return None;
        },
    };
    let (default_branch, j1) = match p_string(b, j0) {
        Some(p) => p,
        None => {
            return None;
        },
    };
    let j2 = match p_lit(b, j1, ",\"retargets\":") {
        Some(j) => j,
        None => {
            return None;
        },
    };
    let (retargets, j3) = match p_retargets(b, j2) {
        Some(p) => p,
        None => {
            return None;
        },
    };
    let j4 = match p_lit(b, j3, "}") {
        Some(j) => j,
        None => {
            return None;
        },
    };
    if j4 != b.len() {
        return None;
    }
    Some(LastSyncPlan { default_branch, retargets })
}

/// ASCII character sequences encode byte-for-byte.
proof fn lemma_encode_ascii(s: Seq<char>)
    requires
        forall|i: int| 0 <= i < s.len() ==> ((#[trigger] s[i]) as u32) < 0x80,
    ensures
        encode_utf8(s).len() == s.len(),
        forall|i: int|
            0 <= i < s.len() ==> #[trigger] encode_utf8(s)[i] == ((s[i] as u32) as u8),
    decreases s.len(),
{
    if s.len() > 0 {
        let sc: u32 = s[0] as u32;
        assert(sc & 0x7F == sc) by (bit_vector)
            requires
                sc < 0x80,
        ;
        assert(vstd::utf8::encode_scalar(sc) == seq![(sc & 0x7F) as u8]);
        lemma_encode_ascii(s.drop_first());
        assert(encode_utf8(s) == vstd::utf8::encode_scalar(sc) + encode_utf8(s.drop_first()));
        assert forall|i: int| 0 <= i < s.len() implies #[trigger] encode_utf8(s)[i] == ((s[i]
            as u32) as u8) by {
            if i == 0 {
                assert(encode_utf8(s)[0] == (sc & 0x7F) as u8);
                assert((sc & 0x7F) as u8 == sc as u8);
            } else {
                assert(encode_utf8(s)[i] == encode_utf8(s.drop_first())[i - 1]);
                assert(s.drop_first()[i - 1] == s[i]);
            }
        };
    }
}

/// The bytes of the `null` keyword.
proof fn lemma_null_bytes()
    ensures
        encode_utf8("null"@) == seq![0x6eu8, 0x75u8, 0x6cu8, 0x6cu8],
{
    reveal_strlit("null");
    lemma_encode_ascii("null"@);
    assert(encode_utf8("null"@) =~= seq![0x6eu8, 0x75u8, 0x6cu8, 0x6cu8]);
}

/// A stored escaped string body followed by a quote parses back to the
/// bytes it came from.
proof fn lemma_sp_str_body_enc(sb: Seq<u8>, b: Seq<u8>, i: int)
    requires
        json_plain(sb),
        0 <= i,
        i + escape(sb).len() + 1 <= b.len(),
        b.subrange(i, i + escape(sb).len()) == escape(sb),
        b[i + escape(sb).len()] == 0x22,
    ensures
        sp_str_body(b, i) == Some::<(Seq<u8>, int)>((sb, i + escape(sb).len() + 1)),
    decreases sb.len(),
{
    if sb.len() == 0 {
        assert(escape(sb).len() == 0);
        assert(b[i] == 0x22);
        assert(sb =~= Seq::<u8>::empty());
    } else {
        let c = sb[0];
        let rest = sb.drop_first();
        assert(escape(sb) == esc_byte(c) + escape(rest));
        assert(json_plain(rest)) by {
            assert(forall|k: int| 0 <= k < rest.len() ==> rest[k] == sb[k + 1]);
        };
        assert(c >= 0x20);
        if c == 0x22 || c == 0x5c {
            assert(esc_byte(c).len() == 2);
            assert(b[i] == escape(sb)[0]);
            assert(escape(sb)[0] == 0x5c);
            assert(b[i + 1] == escape(sb)[1]);
            assert(escape(sb)[1] == c);
            assert forall|k: int| 0 <= k < escape(rest).len() implies b[i + 2 + k] == escape(
                rest,
            )[k] by {
                assert(escape(sb)[2 + k] == escape(rest)[k]);
                assert(b.subrange(i, i + escape(sb).len())[2 + k] == b[i + 2 + k]);
            };
            assert(b.subrange(i + 2, i + 2 + escape(rest).len()) =~= escape(rest));
            assert(b[i + 2 + escape(rest).len()] == 0x22);
            lemma_sp_str_body_enc(rest, b, i + 2);
            assert(seq![c] + rest =~= sb);
        } else {
            assert(esc_byte(c).len() == 1);
            assert(b[i] == escape(sb)[0]);
            assert(escape(sb)[0] == c);
            assert forall|k: int| 0 <= k < escape(rest).len() implies b[i + 1 + k] == escape(
                rest,
            )[k] by {
                assert(escape(sb)[1 + k] == escape(rest)[k]);
                assert(b.subrange(i, i + escape(sb).len())[1 + k] == b[i + 1 + k]);
            };
            assert(b.subrange(i + 1, i + 1 + escape(rest).len()) =~= escape(rest));
            assert(b[i + 1 + escape(rest).len()] == 0x22);
            lemma_sp_str_body_enc(rest, b, i + 1);
            assert(seq![c] + rest =~= sb);
        }
    }
}

/// A stored JSON string parses back to the characters it came from.
proof fn lemma_sp_string_enc(sv: Seq<char>, b: Seq<u8>, i: int)
    requires
        plain_str(sv),
        0 <= i,
        i + string_enc(sv).len() <= b.len(),
        b.subrange(i, i + string_enc(sv).len()) == string_enc(sv),
    ensures
        sp_string(b, i) == Some::<(Seq<char>, int)>((sv, i + string_enc(sv).len())),
{
    let e = encode_utf8(sv);
    let l = escape(e).len() as int;
    assert(string_enc(sv).len() == l + 2);
    assert(b[i] == string_enc(sv)[0]);
    assert(string_enc(sv)[0] == 0x22);
    assert forall|k: int| 0 <= k < l implies b[i + 1 + k] == escape(e)[k] by {
        assert(string_enc(sv)[1 + k] == escape(e)[k]);
        assert(b.subrange(i, i + string_enc(sv).len())[1 + k] == b[i + 1 + k]);
    };
    assert(b.subrange(i + 1, i + 1 + l) =~= escape(e));
    assert(b[i + 1 + l] == string_enc(sv)[l + 1]);
    assert(string_enc(sv)[l + 1] == 0x22);
    lemma_sp_str_body_enc(e, b, i + 1);
    vstd::utf8::encode_utf8_valid_utf8(sv);
    vstd::utf8::encode_utf8_decode_utf8(sv);
}

/// The value a digit run folds to, starting from `acc`.
spec fn digits_val(s: Seq<u8>, acc: nat) -> nat
    decreases s.len(),
{
    if s.len() == 0 {
        acc
    } else {
        digits_val(s.drop_first(), acc * 10 + (s[0] - 0x30) as nat)
    }
}

/// Appending a digit multiplies the value by ten and adds it.
proof fn lemma_digits_val_snoc(s: Seq<u8>, c: u8, acc: nat)
    ensures
        digits_val(s.push(c), acc) == digits_val(s, acc) * 10 + (c - 0x30) as nat,
    decreases s.len(),
{
    if s.len() == 0 {
        assert(s.push(c)[0] == c);
        assert(s.push(c).drop_first() =~= Seq::<u8>::empty());
        assert(digits_val(Seq::<u8>::empty(), acc * 10 + (c - 0x30) as nat) == acc * 10 + (c
            - 0x30) as nat);
        assert(digits_val(s, acc) == acc);
    } else {
        assert(s.push(c)[0] == s[0]);
        assert(s.push(c).drop_first() =~= s.drop_first().push(c));
        lemma_digits_val_snoc(s.drop_first(), c, acc * 10 + (s[0] - 0x30) as nat);
    }
}

/// The decimal digits of `n` are digits, start without a leading zero for
/// positive `n`, and fold back to `n`.
proof fn lemma_dec_rep_props(n: nat)
    ensures
        dec_rep(n).len() >= 1,
        forall|k: int| 0 <= k < dec_rep(n).len() ==> is_digit(#[trigger] dec_rep(n)[k]),
        n >= 1 ==> dec_rep(n)[0] != 0x30,
        n == 0 ==> dec_rep(n) == seq![0x30u8],
        digits_val(dec_rep(n), 0) == n,
    decreases n,
{
    if n < 10 {
        assert(dec_rep(n) == seq![(0x30 + n) as u8]);
        assert(dec_rep(n).drop_first() =~= Seq::<u8>::empty());
        assert(((0x30 + n) as u8 - 0x30) as nat == n);
        assert(digits_val(Seq::<u8>::empty(), n) == n);
        assert(digits_val(dec_rep(n), 0) == n);
    } else {
        lemma_dec_rep_props(n / 10);
        let d = (0x30 + n % 10) as u8;
        assert(dec_rep(n) == dec_rep(n / 10) + seq![d]);
        assert(dec_rep(n) =~= dec_rep(n / 10).push(d));
        lemma_digits_val_snoc(dec_rep(n / 10), d, 0);
        assert(digits_val(dec_rep(n), 0) == (n / 10) * 10 + n % 10);
        assert(dec_rep(n)[0] == dec_rep(n / 10)[0]);
        assert forall|k: int| 0 <= k < dec_rep(n).len() implies is_digit(
            #[trigger] dec_rep(n)[k],
        ) by {
            if k < dec_rep(n / 10).len() {
                assert(dec_rep(n)[k] == dec_rep(n / 10)[k]);
            } else {
                assert(dec_rep(n)[k] == d);
            }
        };
    }
}

/// A digit run parses to its folded value and stops at the first non-digit.
proof fn lemma_sp_digits_run(b: Seq<u8>, i: int, j: int, acc: nat)
    requires
        0 <= i <= j <= b.len(),
        forall|k: int| i <= k < j ==> is_digit(#[trigger] b[k]),
        j == b.len() || !is_digit(b[j]),
    ensures
        sp_digits(b, i, acc) == (digits_val(b.subrange(i, j), acc), j),
    decreases j - i,
{
    if i == j {
        assert(b.subrange(i, j) =~= Seq::<u8>::empty());
    } else {
        assert(is_digit(b[i]));
        let sub = b.subrange(i, j);
        assert(sub[0] == b[i]);
        assert(sub.drop_first() =~= b.subrange(i + 1, j));
        lemma_sp_digits_run(b, i + 1, j, acc * 10 + (b[i] - 0x30) as nat);
    }
}

/// A stored decimal, followed by a non-digit or the end of the input,
/// parses back to its value.
proof fn lemma_sp_number_enc(n: usize, b: Seq<u8>, i: int)
    requires
        0 <= i,
        i + dec_rep(n as nat).len() <= b.len(),
        b.subrange(i, i + dec_rep(n as nat).len()) == dec_rep(n as nat),
        i + dec_rep(n as nat).len() == b.len() || !is_digit(b[i + dec_rep(n as nat).len()]),
    ensures
        sp_number(b, i) == Some::<(nat, int)>((n as nat, i + dec_rep(n as nat).len())),
{
    lemma_dec_rep_props(n as nat);
    let l = dec_rep(n as nat).len() as int;
    assert forall|k: int| i <= k < i + l implies is_digit(#[trigger] b[k]) by {
        assert(b[k] == dec_rep(n as nat)[k - i]);
    };
    assert(b[i] == dec_rep(n as nat)[0]);
    if b[i] == 0x30 {
        assert(n == 0);
        assert(l == 1);
    }
    lemma_sp_digits_run(b, i, i + l, 0);
    assert(b.subrange(i, i + l) == dec_rep(n as nat));
    assert(digits_val(b.subrange(i, i + l), 0) == n as nat);
}

/// The counter as the parser reports it.
pub open spec fn opt_usize_view(v: Option<usize>) -> Option<nat> {
    match v {
        None => None,
        Some(n) => Some(n as nat),
    }
}

/// The optional string as the parser reports it.
pub open spec fn opt_string_view(v: Option<String>) -> Option<Seq<char>> {
    match v {
        None => None,
        Some(s) => Some(s@),
    }
}

/// A piece of a matched window is itself matched at its offset.
proof fn lemma_subrange_eq(b: Seq<u8>, i: int, total: Seq<u8>, off: int, piece: Seq<u8>)
    requires
        0 <= i,
        i + total.len() <= b.len(),
        b.subrange(i, i + total.len()) == total,
        0 <= off,
        off + piece.len() <= total.len(),
        total.subrange(off, off + piece.len()) == piece,
    ensures
        b.subrange(i + off, i + off + piece.len()) == piece,
{
    assert forall|k: int| 0 <= k < piece.len() implies b[i + off + k] == piece[k] by {
        assert(b.subrange(i, i + total.len())[off + k] == b[i + off + k]);
        assert(total.subrange(off, off + piece.len())[k] == total[off + k]);
    };
    assert(b.subrange(i + off, i + off + piece.len()) =~= piece);
}

/// A stored optional number, followed by a non-digit or the end of the
/// input, parses back to its value.
proof fn lemma_sp_opt_number_enc(v: Option<usize>, b: Seq<u8>, i: int)
    requires
        0 <= i,
        i + opt_num_enc(v).len() <= b.len(),
        b.subrange(i, i + opt_num_enc(v).len()) == opt_num_enc(v),
        i + opt_num_enc(v).len() == b.len() || !is_digit(b[i + opt_num_enc(v).len()]),
    ensures
        sp_opt_number(b, i) == Some::<(Option<nat>, int)>(
            (opt_usize_view(v), i + opt_num_enc(v).len()),
        ),
{
    lemma_null_bytes();
    match v {
        None => {
            assert(sp_lit(b, i, encode_utf8("null"@)) == Some(i + 4));
        },
        Some(n) => {
            lemma_dec_rep_props(n as nat);
            assert(b[i] == dec_rep(n as nat)[0]);
            assert(is_digit(b[i]));
            if sp_lit(b, i, encode_utf8("null"@)) is Some {
                assert(b.subrange(i, i + 4)[0] == b[i]);
                assert(false);
            }
            lemma_sp_number_enc(n, b, i);
        },
    }
}

/// A stored optional string parses back to its characters.
proof fn lemma_sp_opt_string_enc(v: Option<String>, b: Seq<u8>, i: int)
    requires
        0 <= i,
        i + opt_string_enc(v).len() <= b.len(),
        b.subrange(i, i + opt_string_enc(v).len()) == opt_string_enc(v),
        match v {
            Some(h) => plain_str(h@),
            None => true,
        },
    ensures
        sp_opt_string(b, i) == Some::<(Option<Seq<char>>, int)>(
            (opt_string_view(v), i + opt_string_enc(v).len()),
        ),
{
    lemma_null_bytes();
    match v {
        None => {
            assert(sp_lit(b, i, encode_utf8("null"@)) == Some(i + 4));
        },
        Some(h) => {
            assert(b[i] == string_enc(h@)[0]);
            assert(b[i] == 0x22);
            if sp_lit(b, i, encode_utf8("null"@)) is Some {
                assert(b.subrange(i, i + 4)[0] == b[i]);
                assert(false);
            }
            lemma_sp_string_enc(h@, b, i);
        },
    }
}

/// A stored sync step object parses back to its three branch names.
proof fn lemma_sp_step_enc(s: SyncStep, b: Seq<u8>, i: int)
    requires
        plain_str(s.branch@),
        plain_str(s.old_base_ref@),
        plain_str(s.new_base_ref@),
        0 <= i,
        i + step_enc(s).len() <= b.len(),
        b.subrange(i, i + step_enc(s).len()) == step_enc(s),
    ensures
        sp_step(b, i) == Some::<((Seq<char>, Seq<char>, Seq<char>), int)>(
            ((s.branch@, s.old_base_ref@, s.new_base_ref@), i + step_enc(s).len()),
        ),
{
    let l1 = encode_utf8("{\"branch\":"@);
    let s1 = string_enc(s.branch@);
    let l2 = encode_utf8(",\"old_base_ref\":"@);
    let s2 = string_enc(s.old_base_ref@);
    let l3 = encode_utf8(",\"new_base_ref\":"@);
    let s3 = string_enc(s.new_base_ref@);
    let l4 = encode_utf8("}"@);
    let total = step_enc(s);
    let a1 = l1.len() as int;
    let a2 = a1 + s1.len();
    let a3 = a2 + l2.len();
    let a4 = a3 + s2.len();
    let a5 = a4 + l3.len();
    let a6 = a5 + s3.len();
    let a7 = a6 + l4.len();
    assert(total == l1 + s1 + l2 + s2 + l3 + s3 + l4);
    assert(total.len() == a7);
    assert(total.subrange(0, a1) =~= l1);
    assert(total.subrange(a1, a2) =~= s1);
    assert(total.subrange(a2, a3) =~= l2);
    assert(total.subrange(a3, a4) =~= s2);
    assert(total.subrange(a4, a5) =~= l3);
    assert(total.subrange(a5, a6) =~= s3);
    assert(total.subrange(a6, a7) =~= l4);
    lemma_subrange_eq(b, i, total, 0, l1);
    lemma_subrange_eq(b, i, total, a1, s1);
    lemma_subrange_eq(b, i, total, a2, l2);
    lemma_subrange_eq(b, i, total, a3, s2);
    lemma_subrange_eq(b, i, total, a4, l3);
    lemma_subrange_eq(b, i, total, a5, s3);
    lemma_subrange_eq(b, i, total, a6, l4);
    assert(sp_lit(b, i, l1) == Some(i + a1));
    lemma_sp_string_enc(s.branch@, b, i + a1);
    assert(sp_lit(b, i + a2, l2) == Some(i + a3));
    lemma_sp_string_enc(s.old_base_ref@, b, i + a3);
    assert(sp_lit(b, i + a4, l3) == Some(i + a5));
    lemma_sp_string_enc(s.new_base_ref@, b, i + a5);
    assert(sp_lit(b, i + a6, l4) == Some(i + a7));
}

/// A stored retarget step object parses back to its two branch names.
proof fn lemma_sp_retarget_enc(s: RetargetStep, b: Seq<u8>, i: int)
    requires
        plain_str(s.branch@),
        plain_str(s.new_base_ref@),
        0 <= i,
        i + retarget_enc(s).len() <= b.len(),
        b.subrange(i, i + retarget_enc(s).len()) == retarget_enc(s),
    ensures
        sp_retarget(b, i) == Some::<((Seq<char>, Seq<char>), int)>(
            ((s.branch@, s.new_base_ref@), i + retarget_enc(s).len()),
        ),
{
    let l1 = encode_utf8("{\"branch\":"@);
    let s1 = string_enc(s.branch@);
    let l2 = encode_utf8(",\"new_base_ref\":"@);
    let s2 = string_enc(s.new_base_ref@);
    let l3 = encode_utf8("}"@);
    let total = retarget_enc(s);
    let a1 = l1.len() as int;
    let a2 = a1 + s1.len();
    let a3 = a2 + l2.len();
    let a4 = a3 + s2.len();
    let a5 = a4 + l3.len();
    assert(total == l1 + s1 + l2 + s2 + l3);
    assert(total.len() == a5);
    assert(total.subrange(0, a1) =~= l1);
    assert(total.subrange(a1, a2) =~= s1);
    assert(total.subrange(a2, a3) =~= l2);
    assert(total.subrange(a3, a4) =~= s2);
    assert(total.subrange(a4, a5) =~= l3);
    lemma_subrange_eq(b, i, total, 0, l1);
    lemma_subrange_eq(b, i, total, a1, s1);
    lemma_subrange_eq(b, i, total, a2, l2);
    lemma_subrange_eq(b, i, total, a3, s2);
    lemma_subrange_eq(b, i, total, a4, l3);
    assert(sp_lit(b, i, l1) == Some(i + a1));
    lemma_sp_string_enc(s.branch@, b, i + a1);
    assert(sp_lit(b, i + a2, l2) == Some(i + a3));
    lemma_sp_string_enc(s.new_base_ref@, b, i + a3);
    assert(sp_lit(b, i + a4, l3) == Some(i + a5));
}

/// Views of the step fields, as the parser reports them.
pub open spec fn step_tuple_views(xs: Seq<SyncStep>) -> Seq<(Seq<char>, Seq<char>, Seq<char>)> {
    xs.map_values(|x: SyncStep| (x.branch@, x.old_base_ref@, x.new_base_ref@))
}

/// Views of the retarget fields, as the parser reports them.
pub open spec fn retarget_tuple_views(xs: Seq<RetargetStep>) -> Seq<(Seq<char>, Seq<char>)> {
    xs.map_values(|x: RetargetStep| (x.branch@, x.new_base_ref@))
}

/// Every step's strings can be stored.
pub open spec fn steps_plain(xs: Seq<SyncStep>) -> bool {
    forall|i: int|
        0 <= i < xs.len() ==> {
            let st = #[trigger] xs[i];
            plain_str(st.branch@) && plain_str(st.old_base_ref@) && plain_str(st.new_base_ref@)
        }
}

/// Every retarget's strings can be stored.
pub open spec fn retargets_plain(xs: Seq<RetargetStep>) -> bool {
    forall|i: int|
        0 <= i < xs.len() ==> {
            let st = #[trigger] xs[i];
            plain_str(st.branch@) && plain_str(st.new_base_ref@)
        }
}

/// Every branch name can be stored.
pub open spec fn strings_plain(xs: Seq<String>) -> bool {
    forall|i: int| 0 <= i < xs.len() ==> plain_str(#[trigger] xs[i]@)
}

/// The object key that every step and retarget object opens with.
proof fn lemma_obj_open_byte()
    ensures
        encode_utf8("{\"branch\":"@).len() == 10,
        encode_utf8("{\"branch\":"@)[0] == 0x7b,
{
    reveal_strlit("{\"branch\":");
    lemma_encode_ascii("{\"branch\":"@);
}

/// The bytes from a step array's element `k` on: the element, the remaining
/// items, and the closing bracket.
spec fn steps_tail_enc(xs: Seq<SyncStep>, k: int) -> Seq<u8> {
    step_enc(xs[k]) + arr_items(xs, |x: SyncStep| step_enc(x), k + 1) + seq![0x5du8]
}

/// A stored step array tail parses back to the remaining steps.
#[verifier::rlimit(80)]
proof fn lemma_sp_steps_tail(xs: Seq<SyncStep>, b: Seq<u8>, i: int, k: int)
    requires
        steps_plain(xs),
        0 <= k < xs.len(),
        0 <= i,
        i + steps_tail_enc(xs, k).len() <= b.len(),
        b.subrange(i, i + steps_tail_enc(xs, k).len()) == steps_tail_enc(xs, k),
    ensures
        sp_arr_rest(b, i, |bb: Seq<u8>, ii: int| sp_step(bb, ii)) == Some::<
            (Seq<(Seq<char>, Seq<char>, Seq<char>)>, int),
        >((step_tuple_views(xs).subrange(k, xs.len() as int), i + steps_tail_enc(xs, k).len())),
    decreases xs.len() - k,
{
    let encf = |x: SyncStep| step_enc(x);
    let elem = |bb: Seq<u8>, ii: int| sp_step(bb, ii);
    let t = steps_tail_enc(xs, k);
    let e0 = step_enc(xs[k]);
    let rest_items = arr_items(xs, encf, k + 1);
    assert(t == e0 + rest_items + seq![0x5du8]);
    assert(string_enc(xs[k].branch@).len() >= 2);
    assert(e0.len() >= 2);
    assert(t.subrange(0, e0.len() as int) =~= e0);
    lemma_subrange_eq(b, i, t, 0, e0);
    lemma_sp_step_enc(xs[k], b, i);
    let j = i + e0.len();
    assert(elem(b, i) == sp_step(b, i));
    if k + 1 < xs.len() {
        assert(rest_items == seq![0x2cu8] + encf(xs[k + 1]) + arr_items(xs, encf, k + 2));
        assert(b[j] == t[e0.len() as int]);
        assert(t[e0.len() as int] == rest_items[0]);
        assert(rest_items[0] == 0x2c);
        assert(j < b.len());
        let t2 = steps_tail_enc(xs, k + 1);
        assert(t.subrange(e0.len() + 1 as int, t.len() as int) =~= t2);
        lemma_subrange_eq(b, i, t, e0.len() + 1 as int, t2);
        lemma_sp_steps_tail(xs, b, j + 1, k + 1);
        assert(seq![(xs[k].branch@, xs[k].old_base_ref@, xs[k].new_base_ref@)]
            + step_tuple_views(xs).subrange(k + 1, xs.len() as int) =~= step_tuple_views(
            xs,
        ).subrange(k, xs.len() as int));
    } else {
        assert(rest_items == Seq::<u8>::empty());
        assert(b[j] == t[e0.len() as int]);
        assert(t[e0.len() as int] == 0x5d);
        assert(j < b.len());
        assert(seq![(xs[k].branch@, xs[k].old_base_ref@, xs[k].new_base_ref@)]
            =~= step_tuple_views(xs).subrange(k, xs.len() as int));
    }
}

/// A stored step array parses back to the steps.
proof fn lemma_sp_steps_arr(xs: Seq<SyncStep>, b: Seq<u8>, i: int)
    requires
        steps_plain(xs),
        0 <= i,
        i + arr_enc(xs, |x: SyncStep| step_enc(x)).len() <= b.len(),
        b.subrange(i, i + arr_enc(xs, |x: SyncStep| step_enc(x)).len()) == arr_enc(
            xs,
            |x: SyncStep| step_enc(x),
        ),
    ensures
        sp_arr(b, i, |bb: Seq<u8>, ii: int| sp_step(bb, ii)) == Some::<
            (Seq<(Seq<char>, Seq<char>, Seq<char>)>, int),
        >((step_tuple_views(xs), i + arr_enc(xs, |x: SyncStep| step_enc(x)).len())),
{
    let encf = |x: SyncStep| step_enc(x);
    let a = arr_enc(xs, encf);
    assert(b[i] == a[0]);
    assert(a[0] == 0x5b);
    if xs.len() == 0 {
        assert(arr_items(xs, encf, 0) == Seq::<u8>::empty());
        assert(a.len() == 2);
        assert(b[i + 1] == a[1]);
        assert(a[1] == 0x5d);
        assert(step_tuple_views(xs) =~= Seq::<(Seq<char>, Seq<char>, Seq<char>)>::empty());
    } else {
        lemma_obj_open_byte();
        assert(arr_items(xs, encf, 0) == encf(xs[0]) + arr_items(xs, encf, 1));
        let t = steps_tail_enc(xs, 0);
        assert(a.subrange(1, a.len() as int) =~= t);
        lemma_subrange_eq(b, i, a, 1, t);
        assert(b[i + 1] == a[1]);
        assert(a[1] == step_enc(xs[0])[0]);
        assert(step_enc(xs[0])[0] == 0x7b);
        lemma_sp_steps_tail(xs, b, i + 1, 0);
        assert(step_tuple_views(xs).subrange(0, xs.len() as int) =~= step_tuple_views(xs));
    }
}

/// The bytes from a retarget array's element `k` on.
spec fn retargets_tail_enc(xs: Seq<RetargetStep>, k: int) -> Seq<u8> {
    retarget_enc(xs[k]) + arr_items(xs, |x: RetargetStep| retarget_enc(x), k + 1) + seq![0x5du8]
}

/// A stored retarget array tail parses back to the remaining retargets.
#[verifier::rlimit(80)]
proof fn lemma_sp_retargets_tail(xs: Seq<RetargetStep>, b: Seq<u8>, i: int, k: int)
    requires
        retargets_plain(xs),
        0 <= k < xs.len(),
        0 <= i,
        i + retargets_tail_enc(xs, k).len() <= b.len(),
        b.subrange(i, i + retargets_tail_enc(xs, k).len()) == retargets_tail_enc(xs, k),
    ensures
        sp_arr_rest(b, i, |bb: Seq<u8>, ii: int| sp_retarget(bb, ii)) == Some::<
            (Seq<(Seq<char>, Seq<char>)>, int),
        >(
            (
                retarget_tuple_views(xs).subrange(k, xs.len() as int),
                i + retargets_tail_enc(xs, k).len(),
            ),
        ),
    decreases xs.len() - k,
{
    let encf = |x: RetargetStep| retarget_enc(x);
    let elem = |bb: Seq<u8>, ii: int| sp_retarget(bb, ii);
    let t = retargets_tail_enc(xs, k);
    let e0 = retarget_enc(xs[k]);
    let rest_items = arr_items(xs, encf, k + 1);
    assert(t == e0 + rest_items + seq![0x5du8]);
    assert(string_enc(xs[k].branch@).len() >= 2);
    assert(e0.len() >= 2);
    assert(t.subrange(0, e0.len() as int) =~= e0);
    lemma_subrange_eq(b, i, t, 0, e0);
    lemma_sp_retarget_enc(xs[k], b, i);
    let j = i + e0.len();
    assert(elem(b, i) == sp_retarget(b, i));
    if k + 1 < xs.len() {
        assert(rest_items == seq![0x2cu8] + encf(xs[k + 1]) + arr_items(xs, encf, k + 2));
        assert(b[j] == t[e0.len() as int]);
        assert(t[e0.len() as int] == rest_items[0]);
        assert(rest_items[0] == 0x2c);
        assert(j < b.len());
        let t2 = retargets_tail_enc(xs, k + 1);
        assert(t.subrange(e0.len() + 1 as int, t.len() as int) =~= t2);
        lemma_subrange_eq(b, i, t, e0.len() + 1 as int, t2);
        lemma_sp_retargets_tail(xs, b, j + 1, k + 1);
        assert(seq![(xs[k].branch@, xs[k].new_base_ref@)] + retarget_tuple_views(xs).subrange(
            k + 1,
            xs.len() as int,
        ) =~= retarget_tuple_views(xs).subrange(k, xs.len() as int));
    } else {
        assert(rest_items == Seq::<u8>::empty());
        assert(b[j] == t[e0.len() as int]);
        assert(t[e0.len() as int] == 0x5d);
        assert(j < b.len());
        assert(seq![(xs[k].branch@, xs[k].new_base_ref@)] =~= retarget_tuple_views(xs).subrange(
            k,
            xs.len() as int,
        ));
    }
}

/// A stored retarget array parses back to the retargets.
proof fn lemma_sp_retargets_arr(xs: Seq<RetargetStep>, b: Seq<u8>, i: int)
    requires
        retargets_plain(xs),
        0 <= i,
        i + arr_enc(xs, |x: RetargetStep| retarget_enc(x)).len() <= b.len(),
        b.subrange(i, i + arr_enc(xs, |x: RetargetStep| retarget_enc(x)).len()) == arr_enc(
            xs,
            |x: RetargetStep| retarget_enc(x),
        ),
    ensures
        sp_arr(b, i, |bb: Seq<u8>, ii: int| sp_retarget(bb, ii)) == Some::<
            (Seq<(Seq<char>, Seq<char>)>, int),
        >((retarget_tuple_views(xs), i + arr_enc(xs, |x: RetargetStep| retarget_enc(x)).len())),
{
    let encf = |x: RetargetStep| retarget_enc(x);
    let a = arr_enc(xs, encf);
    assert(b[i] == a[0]);
    assert(a[0] == 0x5b);
    if xs.len() == 0 {
        assert(arr_items(xs, encf, 0) == Seq::<u8>::empty());
        assert(a.len() == 2);
        assert(b[i + 1] == a[1]);
        assert(a[1] == 0x5d);
        assert(retarget_tuple_views(xs) =~= Seq::<(Seq<char>, Seq<char>)>::empty());
    } else {
        lemma_obj_open_byte();
        assert(arr_items(xs, encf, 0) == encf(xs[0]) + arr_items(xs, encf, 1));
        let t = retargets_tail_enc(xs, 0);
        assert(a.subrange(1, a.len() as int) =~= t);
        lemma_subrange_eq(b, i, a, 1, t);
        assert(b[i + 1] == a[1]);
        assert(a[1] == retarget_enc(xs[0])[0]);
        assert(retarget_enc(xs[0])[0] == 0x7b);
        lemma_sp_retargets_tail(xs, b, i + 1, 0);
        assert(retarget_tuple_views(xs).subrange(0, xs.len() as int) =~= retarget_tuple_views(
            xs,
        ));
    }
}

/// The bytes from a string array's element `k` on.
spec fn strings_tail_enc(xs: Seq<String>, k: int) -> Seq<u8> {
    string_enc(xs[k]@) + arr_items(xs, |x: String| string_enc(x@), k + 1) + seq![0x5du8]
}

/// A stored string array tail parses back to the remaining names.
#[verifier::rlimit(80)]
proof fn lemma_sp_strings_tail(xs: Seq<String>, b: Seq<u8>, i: int, k: int)
    requires
        strings_plain(xs),
        0 <= k < xs.len(),
        0 <= i,
        i + strings_tail_enc(xs, k).len() <= b.len(),
        b.subrange(i, i + strings_tail_enc(xs, k).len()) == strings_tail_enc(xs, k),
    ensures
        sp_arr_rest(b, i, |bb: Seq<u8>, ii: int| sp_string(bb, ii)) == Some::<
            (Seq<Seq<char>>, int),
        >(
            (
                crate::text::string_views(xs).subrange(k, xs.len() as int),
                i + strings_tail_enc(xs, k).len(),
            ),
        ),
    decreases xs.len() - k,
{
    let encf = |x: String| string_enc(x@);
    let elem = |bb: Seq<u8>, ii: int| sp_string(bb, ii);
    let t = strings_tail_enc(xs, k);
    let e0 = string_enc(xs[k]@);
    let rest_items = arr_items(xs, encf, k + 1);
    assert(t == e0 + rest_items + seq![0x5du8]);
    assert(e0.len() >= 2);
    assert(t.subrange(0, e0.len() as int) =~= e0);
    lemma_subrange_eq(b, i, t, 0, e0);
    lemma_sp_string_enc(xs[k]@, b, i);
    let j = i + e0.len();
    assert(elem(b, i) == sp_string(b, i));
    if k + 1 < xs.len() {
        assert(rest_items == seq![0x2cu8] + encf(xs[k + 1]) + arr_items(xs, encf, k + 2));
        assert(b[j] == t[e0.len() as int]);
        assert(t[e0.len() as int] == rest_items[0]);
        assert(rest_items[0] == 0x2c);
        assert(j < b.len());
        let t2 = strings_tail_enc(xs, k + 1);
        assert(t.subrange(e0.len() + 1 as int, t.len() as int) =~= t2);
        lemma_subrange_eq(b, i, t, e0.len() + 1 as int, t2);
        lemma_sp_strings_tail(xs, b, j + 1, k + 1);
        assert(seq![xs[k]@] + crate::text::string_views(xs).subrange(k + 1, xs.len() as int)
            =~= crate::text::string_views(xs).subrange(k, xs.len() as int));
    } else {
        assert(rest_items == Seq::<u8>::empty());
        assert(b[j] == t[e0.len() as int]);
        assert(t[e0.len() as int] == 0x5d);
        assert(j < b.len());
        assert(seq![xs[k]@] =~= crate::text::string_views(xs).subrange(k, xs.len() as int));
    }
}

/// A stored string array parses back to the names.
proof fn lemma_sp_strings_arr(xs: Seq<String>, b: Seq<u8>, i: int)
    requires
        strings_plain(xs),
        0 <= i,
        i + arr_enc(xs, |x: String| string_enc(x@)).len() <= b.len(),
        b.subrange(i, i + arr_enc(xs, |x: String| string_enc(x@)).len()) == arr_enc(
            xs,
            |x: String| string_enc(x@),
        ),
    ensures
        sp_arr(b, i, |bb: Seq<u8>, ii: int| sp_string(bb, ii)) == Some::<(Seq<Seq<char>>, int)>(
            (crate::text::string_views(xs), i + arr_enc(xs, |x: String| string_enc(x@)).len()),
        ),
{
    let encf = |x: String| string_enc(x@);
    let a = arr_enc(xs, encf);
    assert(b[i] == a[0]);
    assert(a[0] == 0x5b);
    if xs.len() == 0 {
        assert(arr_items(xs, encf, 0) == Seq::<u8>::empty());
        assert(a.len() == 2);
        assert(b[i + 1] == a[1]);
        assert(a[1] == 0x5d);
        assert(crate::text::string_views(xs) =~= Seq::<Seq<char>>::empty());
    } else {
        assert(arr_items(xs, encf, 0) == encf(xs[0]) + arr_items(xs, encf, 1));
        let t = strings_tail_enc(xs, 0);
        assert(a.subrange(1, a.len() as int) =~= t);
        lemma_subrange_eq(b, i, a, 1, t);
        assert(b[i + 1] == a[1]);
        assert(a[1] == string_enc(xs[0]@)[0]);
        assert(string_enc(xs[0]@)[0] == 0x22);
        lemma_sp_strings_tail(xs, b, i + 1, 0);
        assert(crate::text::string_views(xs).subrange(0, xs.len() as int)
            =~= crate::text::string_views(xs));
    }
}

/// Splits a matched window at a concatenation boundary.
proof fn lemma_split_concat(b: Seq<u8>, i: int, x: Seq<u8>, y: Seq<u8>)
    requires
        0 <= i,
        i + x.len() + y.len() <= b.len(),
        b.subrange(i, i + x.len() + y.len()) == x + y,
    ensures
        b.subrange(i, i + x.len()) == x,
        b.subrange(i + x.len(), i + x.len() + y.len()) == y,
{
    assert forall|k: int| 0 <= k < x.len() implies b[i + k] == x[k] by {
        assert(b.subrange(i, i + x.len() + y.len())[k] == b[i + k]);
    };
    assert forall|k: int| 0 <= k < y.len() implies b[i + x.len() + k] == y[k] by {
        assert(b.subrange(i, i + x.len() + y.len())[x.len() + k] == b[i + x.len() + k]);
    };
    assert(b.subrange(i, i + x.len()) =~= x);
    assert(b.subrange(i + x.len(), i + x.len() + y.len()) =~= y);
}

/// The commas and closing brace that terminate stored numbers.
proof fn lemma_sep_bytes()
    ensures
        encode_utf8(",\"failed_step\":"@)[0] == 0x2c,
        encode_utf8(",\"failed_step\":"@).len() == 15,
        encode_utf8(",\"failed_step_branch_head\":"@)[0] == 0x2c,
        encode_utf8(",\"failed_step_branch_head\":"@).len() == 27,
        encode_utf8(",\"retargets\":"@)[0] == 0x2c,
        encode_utf8(",\"retargets\":"@).len() == 13,
        encode_utf8("}"@)[0] == 0x7d,
        encode_utf8("}"@).len() == 1,
{
    reveal_strlit(",\"failed_step\":");
    lemma_encode_ascii(",\"failed_step\":"@);
    reveal_strlit(",\"failed_step_branch_head\":");
    lemma_encode_ascii(",\"failed_step_branch_head\":"@);
    reveal_strlit(",\"retargets\":");
    lemma_encode_ascii(",\"retargets\":"@);
    reveal_strlit("}");
    lemma_encode_ascii("}"@);
}

/// Round trip: the bytes a sync state encodes to parse back to exactly that
/// state's fields.
/// Where each field sits inside the stored sync record.
#[verifier::rlimit(60)]
proof fn lemma_sync_enc_layout(s: SyncState)
    ensures
        ({
            let b = sync_enc(s);
            let l0 = encode_utf8("{\"kind\":\"sync\",\"steps\":"@);
            let aa = arr_enc(s.steps@, |x: SyncStep| step_enc(x));
            let l1 = encode_utf8(",\"completed_steps\":"@);
            let n1 = dec_rep(s.completed_steps as nat);
            let l2 = encode_utf8(",\"failed_step\":"@);
            let o1 = opt_num_enc(s.failed_step);
            let l3 = encode_utf8(",\"failed_step_branch_head\":"@);
            let o2 = opt_string_enc(s.failed_step_branch_head);
            let l4 = encode_utf8("}"@);
            let a1 = l0.len() as int;
            let a2 = a1 + aa.len();
            let a3 = a2 + l1.len();
            let a4 = a3 + n1.len();
            let a5 = a4 + l2.len();
            let a6 = a5 + o1.len();
            let a7 = a6 + l3.len();
            let a8 = a7 + o2.len();
            let a9 = a8 + l4.len();
            &&& b.len() == a9
            &&& b.subrange(0, a1) == l0
            &&& b.subrange(a1, a2) == aa
            &&& b.subrange(a2, a3) == l1
            &&& b.subrange(a3, a4) == n1
            &&& b.subrange(a4, a5) == l2
            &&& b.subrange(a5, a6) == o1
            &&& b.subrange(a6, a7) == l3
            &&& b.subrange(a7, a8) == o2
            &&& b.subrange(a8, a9) == l4
        }),
{
    let b = sync_enc(s);
    let l0 = encode_utf8("{\"kind\":\"sync\",\"steps\":"@);
    let aa = arr_enc(s.steps@, |x: SyncStep| step_enc(x));
    let l1 = encode_utf8(",\"completed_steps\":"@);
    let n1 = dec_rep(s.completed_steps as nat);
    let l2 = encode_utf8(",\"failed_step\":"@);
    let o1 = opt_num_enc(s.failed_step);
    let l3 = encode_utf8(",\"failed_step_branch_head\":"@);
    let o2 = opt_string_enc(s.failed_step_branch_head);
    let l4 = encode_utf8("}"@);
    assert(b == l0 + aa + l1 + n1 + l2 + o1 + l3 + o2 + l4);
    assert(b.subrange(0, b.len() as int) =~= b);
    lemma_split_concat(b, 0, l0 + aa + l1 + n1 + l2 + o1 + l3 + o2, l4);
    lemma_split_concat(b, 0, l0 + aa + l1 + n1 + l2 + o1 + l3, o2);
    lemma_split_concat(b, 0, l0 + aa + l1 + n1 + l2 + o1, l3);
    lemma_split_concat(b, 0, l0 + aa + l1 + n1 + l2, o1);
    lemma_split_concat(b, 0, l0 + aa + l1 + n1, l2);
    lemma_split_concat(b, 0, l0 + aa + l1, n1);
    lemma_split_concat(b, 0, l0 + aa, l1);
    lemma_split_concat(b, 0, l0, aa);
}

/// Round trip: the bytes a sync state encodes to parse back to exactly that
/// state's fields.
#[verifier::rlimit(100)]
pub proof fn lemma_sync_state_round_trip(s: SyncState)
    requires
        sync_plain(s),
    ensures
        sp_sync(sync_enc(s)) == Some::<
            (Seq<(Seq<char>, Seq<char>, Seq<char>)>, nat, Option<nat>, Option<Seq<char>>),
        >(
            (
                step_tuple_views(s.steps@),
                s.completed_steps as nat,
                opt_usize_view(s.failed_step),
                opt_string_view(s.failed_step_branch_head),
            ),
        ),
{
    let b = sync_enc(s);
    let l0 = encode_utf8("{\"kind\":\"sync\",\"steps\":"@);
    let aa = arr_enc(s.steps@, |x: SyncStep| step_enc(x));
    let l1 = encode_utf8(",\"completed_steps\":"@);
    let n1 = dec_rep(s.completed_steps as nat);
    let l2 = encode_utf8(",\"failed_step\":"@);
    let o1 = opt_num_enc(s.failed_step);
    let l3 = encode_utf8(",\"failed_step_branch_head\":"@);
    let o2 = opt_string_enc(s.failed_step_branch_head);
    let l4 = encode_utf8("}"@);
    let a1 = l0.len() as int;
    let a2 = a1 + aa.len();
    let a3 = a2 + l1.len();
    let a4 = a3 + n1.len();
    let a5 = a4 + l2.len();
    let a6 = a5 + o1.len();
    let a7 = a6 + l3.len();
    let a8 = a7 + o2.len();
    let a9 = a8 + l4.len();
    lemma_sync_enc_layout(s);
    lemma_sep_bytes();
    assert(sp_lit(b, 0, l0) == Some(a1));
    assert(steps_plain(s.steps@));
    lemma_sp_steps_arr(s.steps@, b, a1);
    assert(sp_lit(b, a2, l1) == Some(a3));
    assert(b[a4] == b.subrange(a4, a5)[0]);
    assert(!is_digit(b[a4]));
    lemma_sp_number_enc(s.completed_steps, b, a3);
    assert(sp_lit(b, a4, l2) == Some(a5));
    assert(b[a6] == b.subrange(a6, a7)[0]);
    assert(!is_digit(b[a6]));
    lemma_sp_opt_number_enc(s.failed_step, b, a5);
    assert(sp_lit(b, a6, l3) == Some(a7));
    lemma_sp_opt_string_enc(s.failed_step_branch_head, b, a7);
    assert(sp_lit(b, a8, l4) == Some(a9));
}

/// Where each field sits inside the stored push record.
#[verifier::rlimit(60)]
proof fn lemma_push_enc_layout(p: PushState)
    ensures
        ({
            let b = push_enc(p);
            let l0 = encode_utf8("{\"kind\":\"push\",\"push_branches\":"@);
            let aa = arr_enc(p.push_branches@, |x: String| string_enc(x@));
            let l1 = encode_utf8(",\"completed_pushes\":"@);
            let n1 = dec_rep(p.completed_pushes as nat);
            let l2 = encode_utf8(",\"retargets\":"@);
            let rr = arr_enc(p.retargets@, |x: RetargetStep| retarget_enc(x));
            let l3 = encode_utf8(",\"completed_retargets\":"@);
            let n2 = dec_rep(p.completed_retargets as nat);
            let l4 = encode_utf8("}"@);
            let a1 = l0.len() as int;
            let a2 = a1 + aa.len();
            let a3 = a2 + l1.len();
            let a4 = a3 + n1.len();
            let a5 = a4 + l2.len();
            let a6 = a5 + rr.len();
            let a7 = a6 + l3.len();
            let a8 = a7 + n2.len();
            let a9 = a8 + l4.len();
            &&& b.len() == a9
            &&& b.subrange(0, a1) == l0
            &&& b.subrange(a1, a2) == aa
            &&& b.subrange(a2, a3) == l1
            &&& b.subrange(a3, a4) == n1
            &&& b.subrange(a4, a5) == l2
            &&& b.subrange(a5, a6) == rr
            &&& b.subrange(a6, a7) == l3
            &&& b.subrange(a7, a8) == n2
            &&& b.subrange(a8, a9) == l4
        }),
{
    let b = push_enc(p);
    let l0 = encode_utf8("{\"kind\":\"push\",\"push_branches\":"@);
    let aa = arr_enc(p.push_branches@, |x: String| string_enc(x@));
    let l1 = encode_utf8(",\"completed_pushes\":"@);
    let n1 = dec_rep(p.completed_pushes as nat);
    let l2 = encode_utf8(",\"retargets\":"@);
    let rr = arr_enc(p.retargets@, |x: RetargetStep| retarget_enc(x));
    let l3 = encode_utf8(",\"completed_retargets\":"@);
    let n2 = dec_rep(p.completed_retargets as nat);
    let l4 = encode_utf8("}"@);
    assert(b == l0 + aa + l1 + n1 + l2 + rr + l3 + n2 + l4);
    assert(b.subrange(0, b.len() as int) =~= b);
    lemma_split_concat(b, 0, l0 + aa + l1 + n1 + l2 + rr + l3 + n2, l4);
    lemma_split_concat(b, 0, l0 + aa + l1 + n1 + l2 + rr + l3, n2);
    lemma_split_concat(b, 0, l0 + aa + l1 + n1 + l2 + rr, l3);
    lemma_split_concat(b, 0, l0 + aa + l1 + n1 + l2, rr);
    lemma_split_concat(b, 0, l0 + aa + l1 + n1, l2);
    lemma_split_concat(b, 0, l0 + aa + l1, n1);
    lemma_split_concat(b, 0, l0 + aa, l1);
    lemma_split_concat(b, 0, l0, aa);
}

/// Round trip: the bytes a push state encodes to parse back to exactly that
/// state's fields.
#[verifier::rlimit(100)]
pub proof fn lemma_push_state_round_trip(p: PushState)
    requires
        push_plain(p),
    ensures
        sp_push(push_enc(p)) == Some::<
            (Seq<Seq<char>>, nat, Seq<(Seq<char>, Seq<char>)>, nat),
        >(
            (
                crate::text::string_views(p.push_branches@),
                p.completed_pushes as nat,
                retarget_tuple_views(p.retargets@),
                p.completed_retargets as nat,
            ),
        ),
{
    let b = push_enc(p);
    let l0 = encode_utf8("{\"kind\":\"push\",\"push_branches\":"@);
    let aa = arr_enc(p.push_branches@, |x: String| string_enc(x@));
    let l1 = encode_utf8(",\"completed_pushes\":"@);
    let n1 = dec_rep(p.completed_pushes as nat);
    let l2 = encode_utf8(",\"retargets\":"@);
    let rr = arr_enc(p.retargets@, |x: RetargetStep| retarget_enc(x));
    let l3 = encode_utf8(",\"completed_retargets\":"@);
    let n2 = dec_rep(p.completed_retargets as nat);
    let l4 = encode_utf8("}"@);
    let a1 = l0.len() as int;
    let a2 = a1 + aa.len();
    let a3 = a2 + l1.len();
    let a4 = a3 + n1.len();
    let a5 = a4 + l2.len();
    let a6 = a5 + rr.len();
    let a7 = a6 + l3.len();
    let a8 = a7 + n2.len();
    let a9 = a8 + l4.len();
    lemma_push_enc_layout(p);
    lemma_sep_bytes();
    assert(sp_lit(b, 0, l0) == Some(a1));
    assert(strings_plain(p.push_branches@));
    lemma_sp_strings_arr(p.push_branches@, b, a1);
    assert(sp_lit(b, a2, l1) == Some(a3));
    assert(b[a4] == b.subrange(a4, a5)[0]);
    assert(!is_digit(b[a4]));
    lemma_sp_number_enc(p.completed_pushes, b, a3);
    assert(sp_lit(b, a4, l2) == Some(a5));
    assert(retargets_plain(p.retargets@));
    lemma_sp_retargets_arr(p.retargets@, b, a5);
    assert(sp_lit(b, a6, l3) == Some(a7));
    assert(b[a8] == b.subrange(a8, a9)[0]);
    assert(!is_digit(b[a8]));
    lemma_sp_number_enc(p.completed_retargets, b, a7);
    assert(sp_lit(b, a8, l4) == Some(a9));
}

/// Round trip: the bytes a cached plan encodes to parse back to exactly
/// that plan's fields.
#[verifier::rlimit(100)]
pub proof fn lemma_plan_round_trip(p: LastSyncPlan)
    requires
        plan_plain(p),
    ensures
        sp_plan(plan_enc(p)) == Some::<(Seq<char>, Seq<(Seq<char>, Seq<char>)>)>(
            (p.default_branch@, retarget_tuple_views(p.retargets@)),
        ),
{
    let b = plan_enc(p);
    let l0 = encode_utf8("{\"default_branch\":"@);
    let s0 = string_enc(p.default_branch@);
    let l1 = encode_utf8(",\"retargets\":"@);
    let rr = arr_enc(p.retargets@, |x: RetargetStep| retarget_enc(x));
    let l2 = encode_utf8("}"@);
    let a1 = l0.len() as int;
    let a2 = a1 + s0.len();
    let a3 = a2 + l1.len();
    let a4 = a3 + rr.len();
    let a5 = a4 + l2.len();
    assert(b == l0 + s0 + l1 + rr + l2);
    assert(b.len() == a5);
    assert(b.subrange(0, b.len() as int) =~= b);
    assert(b.subrange(0, a1) =~= l0);
    assert(b.subrange(a1, a2) =~= s0);
    assert(b.subrange(a2, a3) =~= l1);
    assert(b.subrange(a3, a4) =~= rr);
    assert(b.subrange(a4, a5) =~= l2);
    assert(sp_lit(b, 0, l0) == Some(a1));
    lemma_sp_string_enc(p.default_branch@, b, a1);
    assert(sp_lit(b, a2, l1) == Some(a3));
    assert(retargets_plain(p.retargets@));
    lemma_sp_retargets_arr(p.retargets@, b, a3);
    assert(sp_lit(b, a4, l2) == Some(a5));
}

/// The stored kind tags differ at their ninth byte.
#[verifier::rlimit(100)]
proof fn lemma_kind_tag_bytes()
    ensures
        encode_utf8("{\"kind\":\"sync\",\"steps\":"@).len() == 23,
        encode_utf8("{\"kind\":\"sync\",\"steps\":"@)[9] == 0x73,
        encode_utf8("{\"kind\":\"push\",\"push_branches\":"@).len() == 31,
        encode_utf8("{\"kind\":\"push\",\"push_branches\":"@)[9] == 0x70,
{
    reveal_strlit("{\"kind\":\"sync\",\"steps\":");
    lemma_encode_ascii("{\"kind\":\"sync\",\"steps\":"@);
    reveal_strlit("{\"kind\":\"push\",\"push_branches\":");
    lemma_encode_ascii("{\"kind\":\"push\",\"push_branches\":"@);
}

/// A stored push record never parses as a sync record.
#[verifier::rlimit(100)]
proof fn lemma_push_not_sync(p: PushState)
    ensures
        sp_sync(push_enc(p)) is None,
{
    let sync_l0 = encode_utf8("{\"kind\":\"sync\",\"steps\":"@);
    let push_l0 = encode_utf8("{\"kind\":\"push\",\"push_branches\":"@);
    lemma_kind_tag_bytes();
    lemma_push_enc_layout(p);
    let pb = push_enc(p);
    assert(pb[9] == push_l0[9]) by {
        assert(pb.subrange(0, push_l0.len() as int)[9] == pb[9]);
    };
    if sp_lit(pb, 0, sync_l0) is Some {
        assert(pb.subrange(0, sync_l0.len() as int)[9] == pb[9]);
        assert(false);
    }
}

/// A stored sync record never parses as a push record.
#[verifier::rlimit(100)]
proof fn lemma_sync_not_push(s: SyncState)
    ensures
        sp_push(sync_enc(s)) is None,
{
    let sync_l0 = encode_utf8("{\"kind\":\"sync\",\"steps\":"@);
    let push_l0 = encode_utf8("{\"kind\":\"push\",\"push_branches\":"@);
    lemma_kind_tag_bytes();
    lemma_sync_enc_layout(s);
    let sb = sync_enc(s);
    assert(sb[9] == sync_l0[9]) by {
        assert(sb.subrange(0, sync_l0.len() as int)[9] == sb[9]);
    };
    if sp_lit(sb, 0, push_l0) is Some {
        assert(sb.subrange(0, push_l0.len() as int)[9] == sb[9]);
        assert(false);
    }
}

/// The two stored kinds never parse as each other: the tag byte differs.
pub proof fn lemma_kinds_distinct(s: SyncState, p: PushState)
    ensures
        sp_sync(push_enc(p)) is None,
        sp_push(sync_enc(s)) is None,
{
    lemma_push_not_sync(p);
    lemma_sync_not_push(s);
}

} // verus!
