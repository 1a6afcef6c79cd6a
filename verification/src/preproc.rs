//! Preprocessing pipeline: lexical filter, bracket validator and
//! tokenizer/tree-builder.
//!
//! Program text flows one way: raw text -> filtered text (only the eight
//! instruction characters) -> validated text (brackets balanced) -> nested
//! instruction tree with run-length-folded counts.

use vstd::prelude::*;
use vstd::string::StrSliceExecFns;

verus! {

/// One instruction of the nested, run-length-folded instruction tree.
///
/// A run of `n` consecutive identical move/arithmetic characters collapses
/// into a single token carrying the count `n` (always at least 1).  A loop
/// becomes a self-contained `Loop` token whose body starts with `LoopL` and
/// ends with `LoopR`.
#[derive(PartialEq, Debug)]
pub enum Token {
    MoveFwd(u64),
    MoveBack(u64),
    Inc(u64),
    Dec(u64),
    PutCh,
    GetCh,
    LoopL,
    LoopR,
    Loop(Vec<Token>),
}

/// A structural error found by the bracket validator; positions refer to the
/// filtered text (only instruction characters counted).
#[derive(PartialEq, Eq, Structural, Debug, Clone, Copy)]
pub enum PreprocError {
    /// A `]` appeared before any matching `[`; carries its position.
    UnmatchedLoopClose(usize),
    /// At least one `[` was never closed.
    UnmatchedLoopOpen,
}

/// The eight characters of the instruction alphabet.
pub open spec fn is_instr_char(c: char) -> bool {
    c == '>' || c == '<' || c == '+' || c == '-' || c == '.' || c == ',' || c == '[' || c == ']'
}

/// The text with every character outside the instruction alphabet removed,
/// relative order preserved.
pub open spec fn filtered(s: Seq<char>) -> Seq<char>
    decreases s.len(),
{
    if s.len() == 0 {
        Seq::empty()
    } else if is_instr_char(s.last()) {
        filtered(s.drop_last()).push(s.last())
    } else {
        filtered(s.drop_last())
    }
}

/// Every character of a filtered text is in the instruction alphabet.
pub proof fn lemma_filtered_chars(s: Seq<char>)
    ensures
        forall|j: int| 0 <= j < filtered(s).len() ==> is_instr_char(#[trigger] filtered(s)[j]),
    decreases s.len(),
{
    if s.len() > 0 {
        lemma_filtered_chars(s.drop_last());
        assert forall|j: int| 0 <= j < filtered(s).len() implies is_instr_char(
            #[trigger] filtered(s)[j],
        ) by {
            if is_instr_char(s.last()) {
                if j < filtered(s).len() - 1 {
                    assert(filtered(s)[j] == filtered(s.drop_last())[j]);
                }
            } else {
                assert(filtered(s)[j] == filtered(s.drop_last())[j]);
            }
        }
    }
}

fn is_instr(c: char) -> (b: bool)
    ensures
        b == is_instr_char(c),
{
    c == '>' || c == '<' || c == '+' || c == '-' || c == '.' || c == ',' || c == '[' || c == ']'
}

/// Lexical filter: keeps exactly the instruction characters of `code`, in
/// order.  This stage cannot fail.
fn syntax_check_parse_punctuation(code: &String) -> (r: Vec<char>)
    ensures
        r@ == filtered(code@),
{
    let mut code_result: Vec<char> = Vec::new();
    let s = code.as_str();
    let n = s.unicode_len();
    let mut i: usize = 0;
    while i < n
        invariant
            s@ == code@,
            n == code@.len(),
            i <= n,
            code_result@ == filtered(code@.take(i as int)),
        decreases n - i,
    {
        let c = s.get_char(i);
        if is_instr(c) {
            code_result.push(c);
        }
        proof {
            assert(code@.take(i + 1).drop_last() =~= code@.take(i as int));
            assert(code@.take(i + 1).last() == code@[i as int]);
        }
        i += 1;
    }
    proof {
        assert(code@.take(n as int) =~= code@);
    }
    code_result
}

/// +1 for a loop open, -1 for a loop close, 0 otherwise.
pub open spec fn bracket_delta(c: char) -> int {
    if c == '[' {
        1
    } else if c == ']' {
        -1
    } else {
        0
    }
}

/// Number of loops still open after the first `i` characters of `s`.
pub open spec fn open_depth(s: Seq<char>, i: int) -> int
    decreases i,
{
    if i <= 0 {
        0
    } else {
        open_depth(s, i - 1) + bracket_delta(s[i - 1])
    }
}

/// Every loop close has a previously opened loop, and every opened loop is
/// eventually closed.
pub open spec fn well_bracketed(s: Seq<char>) -> bool {
    &&& forall|i: int| 0 <= i <= s.len() ==> open_depth(s, i) >= 0
    &&& open_depth(s, s.len() as int) == 0
}

/// The characters a single token stands for: `n` copies of the folded
/// character for a counted token, the character itself for a marker or an
/// I/O token, and the whole bracketed body for a `Loop`.
pub open spec fn flat_token(t: Token) -> Seq<char>
    decreases t,
{
    match t {
        Token::MoveFwd(n) => Seq::new(n as nat, |j: int| '>'),
        Token::MoveBack(n) => Seq::new(n as nat, |j: int| '<'),
        Token::Inc(n) => Seq::new(n as nat, |j: int| '+'),
        Token::Dec(n) => Seq::new(n as nat, |j: int| '-'),
        Token::PutCh => seq!['.'],
        Token::GetCh => seq![','],
        Token::LoopL => seq!['['],
        Token::LoopR => seq![']'],
        Token::Loop(body) => flat_tokens(body@),
    }
}

/// The characters a token sequence stands for, in order.
pub open spec fn flat_tokens(ts: Seq<Token>) -> Seq<char>
    decreases ts,
{
    if ts.len() == 0 {
        Seq::empty()
    } else {
        flat_tokens(ts.drop_last()) + flat_token(ts.last())
    }
}

/// True when the two tokens are counted tokens of the same kind, so that a
/// run-length fold would merge them.
pub open spec fn foldable_same(a: Token, b: Token) -> bool {
    match (a, b) {
        (Token::MoveFwd(_), Token::MoveFwd(_)) => true,
        (Token::MoveBack(_), Token::MoveBack(_)) => true,
        (Token::Inc(_), Token::Inc(_)) => true,
        (Token::Dec(_), Token::Dec(_)) => true,
        _ => false,
    }
}

/// The run-length count of a counted token, 0 for every other token.
pub open spec fn token_count(t: Token) -> int {
    match t {
        Token::MoveFwd(n) => n as int,
        Token::MoveBack(n) => n as int,
        Token::Inc(n) => n as int,
        Token::Dec(n) => n as int,
        _ => 0,
    }
}

/// No two adjacent tokens of the sequence could still be merged: the
/// run-length folding is maximal at this nesting level.
pub open spec fn folded_level(ts: Seq<Token>) -> bool {
    forall|i: int| 0 <= i < ts.len() - 1 ==> !foldable_same(#[trigger] ts[i], ts[i + 1])
}

/// Well-formedness of one tree element: counted tokens carry a positive
/// count, loose markers never appear, and a `Loop` holds a marker-delimited,
/// recursively well-formed, maximally folded body.
pub open spec fn wf_elem(t: Token) -> bool
    decreases t,
{
    match t {
        Token::MoveFwd(n) => n >= 1,
        Token::MoveBack(n) => n >= 1,
        Token::Inc(n) => n >= 1,
        Token::Dec(n) => n >= 1,
        Token::PutCh => true,
        Token::GetCh => true,
        Token::LoopL => false,
        Token::LoopR => false,
        Token::Loop(body) => {
            &&& body@.len() >= 2
            &&& body@[0] == Token::LoopL
            &&& body@.last() == Token::LoopR
            &&& folded_level(body@)
            &&& forall|j: int| 1 <= j < body@.len() - 1 ==> wf_elem(#[trigger] body@[j])
        },
    }
}

/// Well-formedness of a whole program: every element is well formed (so no
/// loose markers at the top level) and folding is maximal.
pub open spec fn wf_program(ts: Seq<Token>) -> bool {
    &&& folded_level(ts)
    &&& forall|i: int| 0 <= i < ts.len() ==> wf_elem(#[trigger] ts[i])
}

/// The single token a run-length fold makes of two counted tokens of the
/// same kind; any other pair is left to `b` (the newly appended token).
pub open spec fn merge_tokens(a: Token, b: Token) -> Token {
    match (a, b) {
        (Token::MoveFwd(n2), Token::MoveFwd(n)) => Token::MoveFwd((n + n2) as u64),
        (Token::MoveBack(n2), Token::MoveBack(n)) => Token::MoveBack((n + n2) as u64),
        (Token::Inc(n2), Token::Inc(n)) => Token::Inc((n + n2) as u64),
        (Token::Dec(n2), Token::Dec(n)) => Token::Dec((n + n2) as u64),
        _ => b,
    }
}

/// Appending one token to a sequence under run-length folding: if the last
/// entry is a counted token of the same kind, the two merge into one token
/// carrying the summed count; otherwise the token is appended as is.
pub open spec fn spec_pack(arr: Seq<Token>, t: Token) -> Seq<Token> {
    if arr.len() > 0 && foldable_same(arr.last(), t) {
        arr.drop_last().push(merge_tokens(arr.last(), t))
    } else {
        arr.push(t)
    }
}

/// The merged count stays within the count's type.
pub open spec fn pack_ok(arr: Seq<Token>, t: Token) -> bool {
    arr.len() > 0 && foldable_same(arr.last(), t) ==> token_count(arr.last()) + token_count(t)
        <= u64::MAX
}

/// Run-length folding of a whole sequence, one append at a time.
pub open spec fn fold_tokens(ts: Seq<Token>) -> Seq<Token>
    decreases ts.len(),
{
    if ts.len() == 0 {
        Seq::empty()
    } else {
        spec_pack(fold_tokens(ts.drop_last()), ts.last())
    }
}

/// One folding append keeps the folding maximal.
proof fn lemma_pack_folded(arr: Seq<Token>, t: Token)
    requires
        folded_level(arr),
    ensures
        folded_level(spec_pack(arr, t)),
{
    let r = spec_pack(arr, t);
    if arr.len() > 0 && foldable_same(arr.last(), t) {
        assert forall|i: int| 0 <= i < r.len() - 1 implies !foldable_same(
            #[trigger] r[i],
            r[i + 1],
        ) by {
            if i < r.len() - 2 {
                assert(r[i] == arr[i] && r[i + 1] == arr[i + 1]);
            } else {
                assert(r[i] == arr[i]);
                assert(!foldable_same(arr[i], arr[i + 1]));
            }
        }
    } else {
        assert forall|i: int| 0 <= i < r.len() - 1 implies !foldable_same(
            #[trigger] r[i],
            r[i + 1],
        ) by {
            if i < r.len() - 2 {
                assert(r[i] == arr[i] && r[i + 1] == arr[i + 1]);
            } else {
                assert(r[i] == arr.last() && r[i + 1] == t);
            }
        }
    }
}

/// Folding a whole sequence leaves it maximally folded.
proof fn lemma_fold_folded(ts: Seq<Token>)
    ensures
        folded_level(fold_tokens(ts)),
    decreases ts.len(),
{
    if ts.len() == 0 {
    } else {
        lemma_fold_folded(ts.drop_last());
        lemma_pack_folded(fold_tokens(ts.drop_last()), ts.last());
    }
}

/// Folding a maximally folded sequence changes nothing.
proof fn lemma_fold_identity(ts: Seq<Token>)
    requires
        folded_level(ts),
    ensures
        fold_tokens(ts) == ts,
    decreases ts.len(),
{
    if ts.len() == 0 {
        assert(fold_tokens(ts) =~= ts);
    } else {
        let pre = ts.drop_last();
        assert(folded_level(pre)) by {
            assert forall|i: int| 0 <= i < pre.len() - 1 implies !foldable_same(
                #[trigger] pre[i],
                pre[i + 1],
            ) by {
                assert(pre[i] == ts[i] && pre[i + 1] == ts[i + 1]);
                assert(!foldable_same(ts[i], ts[i + 1]));
            }
        }
        lemma_fold_identity(pre);
        if pre.len() > 0 {
            assert(pre.last() == ts[ts.len() - 2] && ts.last() == ts[ts.len() - 1]);
            assert(!foldable_same(ts[ts.len() - 2], ts[ts.len() - 1]));
        }
        assert(fold_tokens(ts) =~= ts);
    }
}

/// Run-length folding is idempotent: folding an already-folded sequence
/// yields the same sequence, so folding twice is the same as folding once.
pub proof fn lemma_fold_idempotent(ts: Seq<Token>)
    ensures
        fold_tokens(fold_tokens(ts)) == fold_tokens(ts),
{
    lemma_fold_folded(ts);
    lemma_fold_identity(fold_tokens(ts));
}

/// Flattening distributes over a plain append.
proof fn lemma_flat_push(ts: Seq<Token>, t: Token)
    ensures
        flat_tokens(ts.push(t)) == flat_tokens(ts) + flat_token(t),
{
    assert(ts.push(t).drop_last() =~= ts);
    assert(ts.push(t).last() == t);
}

/// A token never stands for fewer characters than its run-length count.
proof fn lemma_count_le_flat(t: Token)
    ensures
        token_count(t) <= flat_token(t).len(),
{
}

/// The last token of a sequence contributes at most the whole flattening.
proof fn lemma_last_flat_le(ts: Seq<Token>)
    requires
        ts.len() > 0,
    ensures
        flat_token(ts.last()).len() <= flat_tokens(ts).len(),
{
}

/// A folding append appends exactly the new token's characters.
proof fn lemma_pack_flat(arr: Seq<Token>, t: Token)
    requires
        pack_ok(arr, t),
    ensures
        flat_tokens(spec_pack(arr, t)) == flat_tokens(arr) + flat_token(t),
{
    if arr.len() > 0 && foldable_same(arr.last(), t) {
        let m = merge_tokens(arr.last(), t);
        lemma_flat_push(arr.drop_last(), m);
        assert(flat_token(m) =~= flat_token(arr.last()) + flat_token(t));
        assert(flat_tokens(arr.drop_last()) + (flat_token(arr.last()) + flat_token(t))
            =~= (flat_tokens(arr.drop_last()) + flat_token(arr.last())) + flat_token(t));
    } else {
        lemma_flat_push(arr, t);
    }
}

/// Executable run-length folding append, the heart of the tokenizer: inspect
/// only the target's last entry, merging counted tokens of the same kind.
fn try_pack_simple_token(token: Token, instr_arr: &mut Vec<Token>)
    requires
        pack_ok(old(instr_arr)@, token),
    ensures
        final(instr_arr)@ == spec_pack(old(instr_arr)@, token),
{
    let n = instr_arr.len();
    if n == 0 {
        instr_arr.push(token);
        return ;
    }
    let merged: Option<Token> = match (&token, &instr_arr[n - 1]) {
        (Token::MoveFwd(a), Token::MoveFwd(b)) => Some(Token::MoveFwd(*a + *b)),
        (Token::MoveBack(a), Token::MoveBack(b)) => Some(Token::MoveBack(*a + *b)),
        (Token::Inc(a), Token::Inc(b)) => Some(Token::Inc(*a + *b)),
        (Token::Dec(a), Token::Dec(b)) => Some(Token::Dec(*a + *b)),
        _ => None,
    };
    match merged {
        Some(new_token) => {
            let _ = instr_arr.pop();
            instr_arr.push(new_token);
            proof {
                assert(old(instr_arr)@.subrange(0, old(instr_arr)@.len() - 1) =~= old(
                    instr_arr,
                )@.drop_last());
            }
        },
        None => {
            instr_arr.push(token);
        },
    }
}

/// A loop body still under construction: it already starts with its open
/// marker, everything after it is well formed, and folding is maximal.
pub open spec fn wf_partial(b: Seq<Token>) -> bool {
    &&& b.len() >= 1
    &&& b[0] == Token::LoopL
    &&& folded_level(b)
    &&& forall|j: int| 1 <= j < b.len() ==> wf_elem(#[trigger] b[j])
}

/// A folding append of a well-formed token keeps a program well formed.
proof fn lemma_pack_wf_program(arr: Seq<Token>, t: Token)
    requires
        wf_program(arr),
        wf_elem(t),
        pack_ok(arr, t),
    ensures
        wf_program(spec_pack(arr, t)),
{
    lemma_pack_folded(arr, t);
    let r = spec_pack(arr, t);
    assert forall|i: int| 0 <= i < r.len() implies wf_elem(#[trigger] r[i]) by {
        if arr.len() > 0 && foldable_same(arr.last(), t) {
            if i < r.len() - 1 {
                assert(r[i] == arr[i]);
            } else {
                assert(wf_elem(arr.last()));
            }
        } else {
            if i < r.len() - 1 {
                assert(r[i] == arr[i]);
            }
        }
    }
}

/// A folding append of a well-formed token keeps a partial loop body well
/// formed.
proof fn lemma_pack_wf_partial(b: Seq<Token>, t: Token)
    requires
        wf_partial(b),
        wf_elem(t),
        pack_ok(b, t),
    ensures
        wf_partial(spec_pack(b, t)),
{
    lemma_pack_folded(b, t);
    let r = spec_pack(b, t);
    if b.len() > 0 && foldable_same(b.last(), t) {
        assert(!foldable_same(b[0], t));
        assert(b.len() >= 2);
        assert(r[0] == b[0]);
        assert forall|j: int| 1 <= j < r.len() implies wf_elem(#[trigger] r[j]) by {
            if j < r.len() - 1 {
                assert(r[j] == b[j]);
            } else {
                assert(wf_elem(b.last()));
            }
        }
    } else {
        assert(r[0] == b[0]);
        assert forall|j: int| 1 <= j < r.len() implies wf_elem(#[trigger] r[j]) by {
            if j < r.len() - 1 {
                assert(r[j] == b[j]);
            }
        }
    }
}

/// The characters the stack of partial loop bodies stands for, bottom first.
pub open spec fn stack_flat(ss: Seq<Vec<Token>>) -> Seq<char>
    decreases ss.len(),
{
    if ss.len() == 0 {
        Seq::empty()
    } else {
        stack_flat(ss.drop_last()) + flat_tokens(ss.last()@)
    }
}

/// `stack_flat` distributes over a push.
proof fn lemma_stack_flat_push(ss: Seq<Vec<Token>>, b: Vec<Token>)
    ensures
        stack_flat(ss.push(b)) == stack_flat(ss) + flat_tokens(b@),
{
    assert(ss.push(b).drop_last() =~= ss);
    assert(ss.push(b).last() == b);
}

/// Append a token to whichever sequence is the active target: the innermost
/// open loop body if one exists, else the top-level program.
fn try_push_token_to_loop_stack(
    token: Token,
    loop_stack: &mut Vec<Vec<Token>>,
    result_vec: &mut Vec<Token>,
)
    requires
        old(loop_stack)@.len() > 0 ==> pack_ok(old(loop_stack)@.last()@, token),
        old(loop_stack)@.len() == 0 ==> pack_ok(old(result_vec)@, token),
    ensures
        old(loop_stack)@.len() > 0 ==> {
            &&& final(result_vec)@ == old(result_vec)@
            &&& final(loop_stack)@.len() == old(loop_stack)@.len()
            &&& final(loop_stack)@.last()@ == spec_pack(old(loop_stack)@.last()@, token)
            &&& forall|k: int|
                0 <= k < old(loop_stack)@.len() - 1 ==> final(loop_stack)@[k] == old(
                    loop_stack,
                )@[k]
        },
        old(loop_stack)@.len() == 0 ==> {
            &&& final(loop_stack)@ == old(loop_stack)@
            &&& final(result_vec)@ == spec_pack(old(result_vec)@, token)
        },
{
    if loop_stack.len() > 0 {
        let mut last_loop = loop_stack.pop().unwrap();
        try_pack_simple_token(token, &mut last_loop);
        loop_stack.push(last_loop);
        proof {
            assert(old(loop_stack)@.subrange(0, old(loop_stack)@.len() - 1) =~= old(
                loop_stack,
            )@.drop_last());
        }
    } else {
        try_pack_simple_token(token, result_vec);
    }
}

/// What each structural error claims of the scanned text: a premature loop
/// close is the first position where the open-loop depth goes negative; an
/// unmatched loop open means the depth never goes negative but ends positive.
pub open spec fn rejects_with(s: Seq<char>, e: PreprocError) -> bool {
    match e {
        PreprocError::UnmatchedLoopClose(p) => {
            &&& 0 <= p < s.len()
            &&& open_depth(s, p + 1) < 0
            &&& forall|j: int| 0 <= j <= p ==> open_depth(s, j) >= 0
        },
        PreprocError::UnmatchedLoopOpen => {
            &&& open_depth(s, s.len() as int) > 0
            &&& forall|j: int| 0 <= j <= s.len() ==> open_depth(s, j) >= 0
        },
    }
}

/// A text rejected by the validator is never well bracketed, so together
/// with the validator's contract: the validator accepts exactly the
/// well-bracketed texts, citing the correct failure class otherwise.
pub proof fn lemma_rejection_sound(s: Seq<char>, e: PreprocError)
    requires
        rejects_with(s, e),
    ensures
        !well_bracketed(s),
{
}

/// Bracket validator: a single linear scan over the filtered text.  Accepts
/// exactly the well-bracketed texts; otherwise reports the first structural
/// violation, with the offending position for a premature loop close.
fn syntax_check_lexical(code: &Vec<char>) -> (r: Result<(), PreprocError>)
    ensures
        match r {
            Ok(()) => well_bracketed(code@),
            Err(e) => rejects_with(code@, e),
        },
{
    let mut opened_blocks: usize = 0;
    let mut indx: usize = 0;
    while indx < code.len()
        invariant
            indx <= code@.len(),
            opened_blocks <= indx,
            opened_blocks as int == open_depth(code@, indx as int),
            forall|j: int| 0 <= j <= indx ==> open_depth(code@, j) >= 0,
        decreases code@.len() - indx,
    {
        let c = code[indx];
        if c == '[' {
            opened_blocks += 1;
        } else if c == ']' {
            if opened_blocks == 0 {
                return Err(PreprocError::UnmatchedLoopClose(indx));
            }
            opened_blocks -= 1;
        }
        indx += 1;
    }
    if opened_blocks > 0 {
        return Err(PreprocError::UnmatchedLoopOpen);
    }
    Ok(())
}

/// Lexical filter followed by the bracket validator: returns the filtered
/// text when it is well bracketed, else the first structural violation.
fn syntax_check(code: &String) -> (r: Result<Vec<char>, PreprocError>)
    ensures
        match r {
            Ok(v) => v@ == filtered(code@) && well_bracketed(v@),
            Err(e) => rejects_with(filtered(code@), e),
        },
{
    let parsed_code = syntax_check_parse_punctuation(code);
    match syntax_check_lexical(&parsed_code) {
        Ok(()) => Ok(parsed_code),
        Err(e) => Err(e),
    }
}

/// Tokenizer / tree-builder: walks the validated, filtered text with an
/// explicit stack of currently open loop bodies, folding runs of identical
/// counted instructions as they are appended.  The resulting tree is well
/// formed and flattens back to exactly the input text.
#[verifier::rlimit(100)]
fn tokenize(parsed_code: &Vec<char>) -> (res: Vec<Token>)
    requires
        forall|j: int| 0 <= j < parsed_code@.len() ==> is_instr_char(#[trigger] parsed_code@[j]),
        well_bracketed(parsed_code@),
    ensures
        wf_program(res@),
        flat_tokens(res@) == parsed_code@,
{
    let ghost full = parsed_code@;
    let mut res: Vec<Token> = Vec::new();
    let mut loop_stack: Vec<Vec<Token>> = Vec::new();
    let mut i: usize = 0;
    while i < parsed_code.len()
        invariant
            i <= full.len(),
            full == parsed_code@,
            forall|j: int| 0 <= j < full.len() ==> is_instr_char(#[trigger] full[j]),
            well_bracketed(full),
            loop_stack@.len() == open_depth(full, i as int),
            wf_program(res@),
            forall|k: int| 0 <= k < loop_stack@.len() ==> wf_partial(#[trigger] loop_stack@[k]@),
            flat_tokens(res@) + stack_flat(loop_stack@) == full.take(i as int),
        decreases full.len() - i,
    {
        let chr = parsed_code[i];
        proof {
            assert(full.take(i + 1).drop_last() =~= full.take(i as int));
            assert(full.take(i + 1).last() == full[i as int]);
            assert(open_depth(full, i + 1) == open_depth(full, i as int) + bracket_delta(
                full[i as int],
            ));
        }
        if chr == '[' {
            let mut new_body: Vec<Token> = Vec::new();
            new_body.push(Token::LoopL);
            proof {
                assert(new_body@ =~= seq![Token::LoopL]);
                assert(flat_tokens(new_body@) =~= seq!['[']) by {
                    assert(new_body@.drop_last() =~= Seq::<Token>::empty());
                    assert(flat_tokens(new_body@.drop_last()) =~= Seq::<char>::empty());
                    assert(new_body@.last() == Token::LoopL);
                    assert(flat_token(Token::LoopL) =~= seq!['[']);
                }
                assert(wf_partial(new_body@));
                lemma_stack_flat_push(loop_stack@, new_body);
            }
            loop_stack.push(new_body);
            proof {
                assert(flat_tokens(res@) + stack_flat(loop_stack@) =~= full.take(i + 1));
            }
        } else if chr == ']' {
            proof {
                assert(open_depth(full, i + 1) >= 0);
                assert(loop_stack@.len() >= 1);
            }
            let ghost old_stack = loop_stack@;
            let ghost old_res = res@;
            try_push_token_to_loop_stack(Token::LoopR, &mut loop_stack, &mut res);
            let last_loop = loop_stack.pop().unwrap();
            let ghost body = last_loop@;
            proof {
                assert(body == spec_pack(old_stack.last()@, Token::LoopR));
                assert(body =~= old_stack.last()@.push(Token::LoopR));
                lemma_pack_folded(old_stack.last()@, Token::LoopR);
                lemma_pack_flat(old_stack.last()@, Token::LoopR);
                assert(loop_stack@ =~= old_stack.drop_last());
            }
            let lp = Token::Loop(last_loop);
            proof {
                assert(wf_elem(lp)) by {
                    assert(body[0] == Token::LoopL);
                    assert(body.last() == Token::LoopR);
                    assert forall|j: int| 1 <= j < body.len() - 1 implies wf_elem(
                        #[trigger] body[j],
                    ) by {
                        assert(body[j] == old_stack.last()@[j]);
                        assert(wf_partial(old_stack.last()@));
                    }
                }
                assert(flat_token(lp) == flat_tokens(body));
                assert(flat_tokens(body) =~= flat_tokens(old_stack.last()@) + seq![']']) by {
                    assert(flat_token(Token::LoopR) =~= seq![']']);
                }
            }
            let ghost mid_stack = loop_stack@;
            try_push_token_to_loop_stack(lp, &mut loop_stack, &mut res);
            proof {
                assert(stack_flat(old_stack) == stack_flat(old_stack.drop_last()) + flat_tokens(
                    old_stack.last()@,
                ));
                if mid_stack.len() > 0 {
                    lemma_pack_wf_partial(mid_stack.last()@, lp);
                    lemma_pack_flat(mid_stack.last()@, lp);
                    assert(loop_stack@.drop_last() =~= mid_stack.drop_last());
                    assert(loop_stack@.last()@ == spec_pack(mid_stack.last()@, lp));
                    assert(stack_flat(loop_stack@) == stack_flat(mid_stack.drop_last())
                        + flat_tokens(spec_pack(mid_stack.last()@, lp)));
                    assert(stack_flat(mid_stack) == stack_flat(mid_stack.drop_last())
                        + flat_tokens(mid_stack.last()@));
                    assert(flat_tokens(res@) + stack_flat(loop_stack@) =~= full.take(i + 1));
                    assert forall|k: int| 0 <= k < loop_stack@.len() implies wf_partial(
                        #[trigger] loop_stack@[k]@,
                    ) by {
                        if k < loop_stack@.len() - 1 {
                            assert(loop_stack@[k] == old_stack[k]);
                            assert(wf_partial(old_stack[k]@));
                        }
                    }
                } else {
                    lemma_pack_wf_program(old_res, lp);
                    lemma_pack_flat(old_res, lp);
                    assert(stack_flat(loop_stack@) =~= Seq::<char>::empty());
                    assert(flat_tokens(res@) + stack_flat(loop_stack@) =~= full.take(i + 1));
                }
            }
        } else {
            let instr: Token = if chr == '>' {
                Token::MoveFwd(1)
            } else if chr == '<' {
                Token::MoveBack(1)
            } else if chr == '+' {
                Token::Inc(1)
            } else if chr == '-' {
                Token::Dec(1)
            } else if chr == '.' {
                Token::PutCh
            } else {
                Token::GetCh
            };
            proof {
                assert(is_instr_char(full[i as int]));
                assert(flat_token(instr) =~= seq![chr]);
                assert(wf_elem(instr));
                let target = if loop_stack@.len() > 0 {
                    loop_stack@.last()@
                } else {
                    res@
                };
                if target.len() > 0 && foldable_same(target.last(), instr) {
                    lemma_count_le_flat(target.last());
                    lemma_last_flat_le(target);
                    if loop_stack@.len() > 0 {
                        assert(stack_flat(loop_stack@) == stack_flat(loop_stack@.drop_last())
                            + flat_tokens(target));
                    }
                    assert(flat_tokens(res@).len() + stack_flat(loop_stack@).len() == i as int);
                    assert(token_count(target.last()) + token_count(instr) <= u64::MAX);
                }
            }
            let ghost old_stack = loop_stack@;
            let ghost old_res = res@;
            try_push_token_to_loop_stack(instr, &mut loop_stack, &mut res);
            proof {
                assert(bracket_delta(full[i as int]) == 0);
                if old_stack.len() > 0 {
                    lemma_pack_wf_partial(old_stack.last()@, instr);
                    lemma_pack_flat(old_stack.last()@, instr);
                    assert(loop_stack@.drop_last() =~= old_stack.drop_last());
                    assert(stack_flat(loop_stack@) == stack_flat(old_stack.drop_last())
                        + flat_tokens(spec_pack(old_stack.last()@, instr)));
                    assert(stack_flat(old_stack) == stack_flat(old_stack.drop_last())
                        + flat_tokens(old_stack.last()@));
                    assert(flat_tokens(res@) + stack_flat(loop_stack@) =~= full.take(i + 1));
                    assert forall|k: int| 0 <= k < loop_stack@.len() implies wf_partial(
                        #[trigger] loop_stack@[k]@,
                    ) by {
                        if k < loop_stack@.len() - 1 {
                            assert(loop_stack@[k] == old_stack[k]);
                            assert(wf_partial(old_stack[k]@));
                        }
                    }
                } else {
                    lemma_pack_wf_program(old_res, instr);
                    lemma_pack_flat(old_res, instr);
                    assert(flat_tokens(res@) + stack_flat(loop_stack@) =~= full.take(i + 1));
                }
            }
        }
        i += 1;
    }
    proof {
        assert(open_depth(full, full.len() as int) == 0);
        assert(stack_flat(loop_stack@) =~= Seq::<char>::empty());
        assert(full.take(full.len() as int) =~= full);
        assert(flat_tokens(res@) =~= full);
    }
    res
}

/// The whole preprocessing pipeline: filter the text to the instruction
/// alphabet, validate bracket nesting, and build the run-length-folded
/// instruction tree.  Succeeds exactly when the filtered text is well
/// bracketed; a rejected program is never partially tokenized.
pub fn preprocess(raw_code: &String) -> (r: Result<Vec<Token>, PreprocError>)
    ensures
        match r {
            Ok(v) => {
                &&& well_bracketed(filtered(raw_code@))
                &&& wf_program(v@)
                &&& flat_tokens(v@) == filtered(raw_code@)
            },
            Err(e) => rejects_with(filtered(raw_code@), e),
        },
{
    match syntax_check(raw_code) {
        Ok(parsed_code) => {
            proof {
                lemma_filtered_chars(raw_code@);
            }
            Ok(tokenize(&parsed_code))
        },
        Err(e) => Err(e),
    }
}

} // verus!
