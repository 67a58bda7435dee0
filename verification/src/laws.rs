use vstd::prelude::*;
use crate::err::JsonError;
use crate::lexer::scan_string;
use crate::lexer::token_at;
use crate::render::escaped_byte;
use crate::render::hex_digit_of;
use crate::render::render_str_from;
use crate::parser::ElemState;
use crate::parser::obj_insert;
use crate::parser::parse_list;
use crate::parser::parse_obj;
use crate::parser::parse_text;
use crate::parser::parse_val;
use crate::token::TokenModel;
use crate::value::ValueModel;

verus! {

// ---------------------------------------------------------------------------
// The arena only grows
// ---------------------------------------------------------------------------

pub proof fn lemma_val_arena_grows(s: Seq<u8>, i: int, ar: Seq<ValueModel>, cap: nat)
    ensures
        ar.len() <= parse_val(s, i, ar, cap).2.len(),
    decreases s.len() - i, 0int,
{
    let (t, j) = token_at(s, i);
    match t {
        Ok(tok) => match tok {
            TokenModel::LBracket => if i < j <= s.len() {
                lemma_list_arena_grows(s, j, ar, cap, ElemState::Start, Seq::empty());
            },
            TokenModel::LBrace => if i < j <= s.len() {
                lemma_obj_arena_grows(s, j, ar, cap, ElemState::Start, Seq::empty());
            },
            _ => {},
        },
        _ => {},
    }
}

pub proof fn lemma_list_arena_grows(s: Seq<u8>, i: int, ar: Seq<ValueModel>, cap: nat,
    st: ElemState, acc: Seq<int>)
    ensures
        ar.len() <= parse_list(s, i, ar, cap, st, acc).2.len(),
    decreases s.len() - i, 1int,
{
    let (t, j) = token_at(s, i);
    match t {
        Ok(tok) => match tok {
            TokenModel::RBracket => {},
            TokenModel::Comma => if st is AfterItem && i < j <= s.len() {
                lemma_list_arena_grows(s, j, ar, cap, ElemState::AfterComma, acc);
            },
            _ => if !(st is AfterItem) {
                lemma_val_arena_grows(s, i, ar, cap);
                let (r, i2, ar2) = parse_val(s, i, ar, cap);
                match r {
                    Ok(v) => if ar2.len() < cap && i < i2 <= s.len() {
                        lemma_list_arena_grows(s, i2, ar2.push(v), cap, ElemState::AfterItem,
                            acc.push(ar2.len() as int));
                    },
                    _ => {},
                }
            },
        },
        _ => {},
    }
}

pub proof fn lemma_obj_arena_grows(s: Seq<u8>, i: int, ar: Seq<ValueModel>, cap: nat,
    st: ElemState, acc: Seq<(Seq<u8>, int)>)
    ensures
        ar.len() <= parse_obj(s, i, ar, cap, st, acc).2.len(),
    decreases s.len() - i, 1int,
{
    let (t, j) = token_at(s, i);
    match t {
        Ok(tok) => match tok {
            TokenModel::RBrace => {},
            TokenModel::Comma => if st is AfterItem && i < j <= s.len() {
                lemma_obj_arena_grows(s, j, ar, cap, ElemState::AfterComma, acc);
            },
            TokenModel::Str(key) => if !(st is AfterItem) {
                let (t2, j2) = token_at(s, j);
                match t2 {
                    Ok(tok2) => if tok2 is Colon && i <= j2 <= s.len() {
                        lemma_val_arena_grows(s, j2, ar, cap);
                        let (r, i3, ar3) = parse_val(s, j2, ar, cap);
                        match r {
                            Ok(v) => if ar3.len() < cap && i < i3 <= s.len() {
                                lemma_obj_arena_grows(s, i3, ar3.push(v), cap,
                                    ElemState::AfterItem,
                                    obj_insert(acc, key, ar3.len() as int));
                            },
                            _ => {},
                        }
                    },
                    _ => {},
                }
            },
            _ => {},
        },
        _ => {},
    }
}

// ---------------------------------------------------------------------------
// Any capacity at least the number of allocated values behaves the same
// ---------------------------------------------------------------------------

pub proof fn lemma_val_capacity_up(s: Seq<u8>, i: int, ar: Seq<ValueModel>, cap: nat, cap2: nat)
    requires
        parse_val(s, i, ar, cap).0 is Ok,
        parse_val(s, i, ar, cap).2.len() <= cap2,
    ensures
        parse_val(s, i, ar, cap2) == parse_val(s, i, ar, cap),
    decreases s.len() - i, 0int,
{
    let (t, j) = token_at(s, i);
    match t {
        Ok(tok) => match tok {
            TokenModel::LBracket => if i < j <= s.len() {
                lemma_list_capacity_up(s, j, ar, cap, cap2, ElemState::Start, Seq::empty());
            },
            TokenModel::LBrace => if i < j <= s.len() {
                lemma_obj_capacity_up(s, j, ar, cap, cap2, ElemState::Start, Seq::empty());
            },
            _ => {},
        },
        _ => {},
    }
}

pub proof fn lemma_list_capacity_up(s: Seq<u8>, i: int, ar: Seq<ValueModel>, cap: nat, cap2: nat,
    st: ElemState, acc: Seq<int>)
    requires
        parse_list(s, i, ar, cap, st, acc).0 is Ok,
        parse_list(s, i, ar, cap, st, acc).2.len() <= cap2,
    ensures
        parse_list(s, i, ar, cap2, st, acc) == parse_list(s, i, ar, cap, st, acc),
    decreases s.len() - i, 1int,
{
    let (t, j) = token_at(s, i);
    match t {
        Ok(tok) => match tok {
            TokenModel::RBracket => {},
            TokenModel::Comma => if st is AfterItem && i < j <= s.len() {
                lemma_list_capacity_up(s, j, ar, cap, cap2, ElemState::AfterComma, acc);
            },
            _ => if !(st is AfterItem) {
                let (r, i2, ar2) = parse_val(s, i, ar, cap);
                match r {
                    Ok(v) => if ar2.len() < cap && i < i2 <= s.len() {
                        let acc2 = acc.push(ar2.len() as int);
                        lemma_list_arena_grows(s, i2, ar2.push(v), cap, ElemState::AfterItem,
                            acc2);
                        lemma_val_capacity_up(s, i, ar, cap, cap2);
                        lemma_list_capacity_up(s, i2, ar2.push(v), cap, cap2,
                            ElemState::AfterItem, acc2);
                    },
                    _ => {},
                }
            },
        },
        _ => {},
    }
}

pub proof fn lemma_obj_capacity_up(s: Seq<u8>, i: int, ar: Seq<ValueModel>, cap: nat, cap2: nat,
    st: ElemState, acc: Seq<(Seq<u8>, int)>)
    requires
        parse_obj(s, i, ar, cap, st, acc).0 is Ok,
        parse_obj(s, i, ar, cap, st, acc).2.len() <= cap2,
    ensures
        parse_obj(s, i, ar, cap2, st, acc) == parse_obj(s, i, ar, cap, st, acc),
    decreases s.len() - i, 1int,
{
    let (t, j) = token_at(s, i);
    match t {
        Ok(tok) => match tok {
            TokenModel::RBrace => {},
            TokenModel::Comma => if st is AfterItem && i < j <= s.len() {
                lemma_obj_capacity_up(s, j, ar, cap, cap2, ElemState::AfterComma, acc);
            },
            TokenModel::Str(key) => if !(st is AfterItem) {
                let (t2, j2) = token_at(s, j);
                match t2 {
                    Ok(tok2) => if tok2 is Colon && i <= j2 <= s.len() {
                        let (r, i3, ar3) = parse_val(s, j2, ar, cap);
                        match r {
                            Ok(v) => if ar3.len() < cap && i < i3 <= s.len() {
                                let acc2 = obj_insert(acc, key, ar3.len() as int);
                                lemma_obj_arena_grows(s, i3, ar3.push(v), cap,
                                    ElemState::AfterItem, acc2);
                                lemma_val_capacity_up(s, j2, ar, cap, cap2);
                                lemma_obj_capacity_up(s, i3, ar3.push(v), cap, cap2,
                                    ElemState::AfterItem, acc2);
                            },
                            _ => {},
                        }
                    },
                    _ => {},
                }
            },
            _ => {},
        },
        _ => {},
    }
}

// ---------------------------------------------------------------------------
// A smaller capacity fails with CapacityExceeded
// ---------------------------------------------------------------------------

pub proof fn lemma_val_capacity_down(s: Seq<u8>, i: int, ar: Seq<ValueModel>, cap: nat,
    cap2: nat)
    requires
        parse_val(s, i, ar, cap).0 is Ok,
        ar.len() <= cap2 < parse_val(s, i, ar, cap).2.len(),
    ensures
        parse_val(s, i, ar, cap2).0 == Err::<ValueModel, JsonError>(JsonError::CapacityExceeded),
    decreases s.len() - i, 0int,
{
    let (t, j) = token_at(s, i);
    match t {
        Ok(tok) => match tok {
            TokenModel::LBracket => if i < j <= s.len() {
                lemma_list_capacity_down(s, j, ar, cap, cap2, ElemState::Start, Seq::empty());
            },
            TokenModel::LBrace => if i < j <= s.len() {
                lemma_obj_capacity_down(s, j, ar, cap, cap2, ElemState::Start, Seq::empty());
            },
            _ => {},
        },
        _ => {},
    }
}

pub proof fn lemma_list_capacity_down(s: Seq<u8>, i: int, ar: Seq<ValueModel>, cap: nat,
    cap2: nat, st: ElemState, acc: Seq<int>)
    requires
        parse_list(s, i, ar, cap, st, acc).0 is Ok,
        ar.len() <= cap2 < parse_list(s, i, ar, cap, st, acc).2.len(),
    ensures
        parse_list(s, i, ar, cap2, st, acc).0 == Err::<Seq<int>, JsonError>(
            JsonError::CapacityExceeded),
    decreases s.len() - i, 1int,
{
    let (t, j) = token_at(s, i);
    match t {
        Ok(tok) => match tok {
            TokenModel::RBracket => {},
            TokenModel::Comma => if st is AfterItem && i < j <= s.len() {
                lemma_list_capacity_down(s, j, ar, cap, cap2, ElemState::AfterComma, acc);
            },
            _ => if !(st is AfterItem) {
                let (r, i2, ar2) = parse_val(s, i, ar, cap);
                match r {
                    Ok(v) => if ar2.len() < cap && i < i2 <= s.len() {
                        let acc2 = acc.push(ar2.len() as int);
                        lemma_val_arena_grows(s, i, ar, cap);
                        lemma_list_arena_grows(s, i2, ar2.push(v), cap, ElemState::AfterItem,
                            acc2);
                        if cap2 < ar2.len() {
                            lemma_val_capacity_down(s, i, ar, cap, cap2);
                        } else {
                            lemma_val_capacity_up(s, i, ar, cap, cap2);
                            if cap2 > ar2.len() {
                                lemma_list_capacity_down(s, i2, ar2.push(v), cap, cap2,
                                    ElemState::AfterItem, acc2);
                            }
                        }
                    },
                    _ => {},
                }
            },
        },
        _ => {},
    }
}

pub proof fn lemma_obj_capacity_down(s: Seq<u8>, i: int, ar: Seq<ValueModel>, cap: nat,
    cap2: nat, st: ElemState, acc: Seq<(Seq<u8>, int)>)
    requires
        parse_obj(s, i, ar, cap, st, acc).0 is Ok,
        ar.len() <= cap2 < parse_obj(s, i, ar, cap, st, acc).2.len(),
    ensures
        parse_obj(s, i, ar, cap2, st, acc).0 == Err::<Seq<(Seq<u8>, int)>, JsonError>(
            JsonError::CapacityExceeded),
    decreases s.len() - i, 1int,
{
    let (t, j) = token_at(s, i);
    match t {
        Ok(tok) => match tok {
            TokenModel::RBrace => {},
            TokenModel::Comma => if st is AfterItem && i < j <= s.len() {
                lemma_obj_capacity_down(s, j, ar, cap, cap2, ElemState::AfterComma, acc);
            },
            TokenModel::Str(key) => if !(st is AfterItem) {
                let (t2, j2) = token_at(s, j);
                match t2 {
                    Ok(tok2) => if tok2 is Colon && i <= j2 <= s.len() {
                        let (r, i3, ar3) = parse_val(s, j2, ar, cap);
                        match r {
                            Ok(v) => if ar3.len() < cap && i < i3 <= s.len() {
                                let acc2 = obj_insert(acc, key, ar3.len() as int);
                                lemma_val_arena_grows(s, j2, ar, cap);
                                lemma_obj_arena_grows(s, i3, ar3.push(v), cap,
                                    ElemState::AfterItem, acc2);
                                if cap2 < ar3.len() {
                                    lemma_val_capacity_down(s, j2, ar, cap, cap2);
                                } else {
                                    lemma_val_capacity_up(s, j2, ar, cap, cap2);
                                    if cap2 > ar3.len() {
                                        lemma_obj_capacity_down(s, i3, ar3.push(v), cap, cap2,
                                            ElemState::AfterItem, acc2);
                                    }
                                }
                            },
                            _ => {},
                        }
                    },
                    _ => {},
                }
            },
            _ => {},
        },
        _ => {},
    }
}

// ---------------------------------------------------------------------------
// Every parsed value refers only to slots the arena already holds
// ---------------------------------------------------------------------------

proof fn lemma_obj_insert_bound(acc: Seq<(Seq<u8>, int)>, key: Seq<u8>, h: int, b: int)
    requires
        forall|q: int| 0 <= q < acc.len() ==> 0 <= #[trigger] acc[q].1 < b,
        0 <= h < b,
    ensures
        forall|q: int| 0 <= q < obj_insert(acc, key, h).len()
            ==> 0 <= #[trigger] obj_insert(acc, key, h)[q].1 < b,
    decreases acc.len(),
{
    let res = obj_insert(acc, key, h);
    if acc.len() == 0 {
        assert forall|q: int| 0 <= q < res.len() implies 0 <= #[trigger] res[q].1 < b by {
            assert(res[q] == (key, h));
        }
    } else if acc[0].0 == key {
        assert forall|q: int| 0 <= q < res.len() implies 0 <= #[trigger] res[q].1 < b by {
            if q == 0 {
                assert(res[q] == (key, h));
            } else {
                assert(res[q] == acc.drop_first()[q - 1]);
                assert(acc.drop_first()[q - 1] == acc[q]);
            }
        }
    } else {
        assert(forall|q: int| 0 <= q < acc.drop_first().len()
            ==> 0 <= #[trigger] acc.drop_first()[q].1 < b);
        lemma_obj_insert_bound(acc.drop_first(), key, h, b);
        let rest = obj_insert(acc.drop_first(), key, h);
        assert forall|q: int| 0 <= q < res.len() implies 0 <= #[trigger] res[q].1 < b by {
            if q == 0 {
                assert(res[q] == acc[0]);
            } else {
                assert(res[q] == rest[q - 1]);
            }
        }
    }
}

proof fn lemma_arena_wf_push(ar: Seq<ValueModel>, v: ValueModel)
    requires
        crate::value::arena_wf(ar),
        crate::value::val_wf(v, ar.len() as int),
    ensures
        crate::value::arena_wf(ar.push(v)),
{
    assert forall|j: int| 0 <= j < ar.push(v).len() implies crate::value::val_wf(
        #[trigger] ar.push(v)[j], j) by {
        if j < ar.len() {
            assert(ar.push(v)[j] == ar[j]);
        } else {
            assert(ar.push(v)[j] == v);
        }
    }
}

pub proof fn lemma_val_wf(s: Seq<u8>, i: int, ar: Seq<ValueModel>, cap: nat)
    requires
        crate::value::arena_wf(ar),
    ensures
        ({
            let (r, i2, ar2) = parse_val(s, i, ar, cap);
            crate::value::arena_wf(ar2) && ar.len() <= ar2.len()
                && (r matches Ok(v) ==> crate::value::val_wf(v, ar2.len() as int))
        }),
    decreases s.len() - i, 0int,
{
    let (t, j) = token_at(s, i);
    match t {
        Ok(tok) => match tok {
            TokenModel::LBracket => if i < j <= s.len() {
                lemma_list_wf(s, j, ar, cap, ElemState::Start, Seq::empty());
            },
            TokenModel::LBrace => if i < j <= s.len() {
                lemma_obj_wf(s, j, ar, cap, ElemState::Start, Seq::empty());
            },
            _ => {},
        },
        _ => {},
    }
}

pub proof fn lemma_list_wf(s: Seq<u8>, i: int, ar: Seq<ValueModel>, cap: nat, st: ElemState,
    acc: Seq<int>)
    requires
        crate::value::arena_wf(ar),
        forall|q: int| 0 <= q < acc.len() ==> 0 <= #[trigger] acc[q] < ar.len(),
    ensures
        ({
            let (r, i2, ar2) = parse_list(s, i, ar, cap, st, acc);
            crate::value::arena_wf(ar2) && ar.len() <= ar2.len()
                && (r matches Ok(hs) ==> forall|q: int| 0 <= q < hs.len()
                    ==> 0 <= #[trigger] hs[q] < ar2.len())
        }),
    decreases s.len() - i, 1int,
{
    let (t, j) = token_at(s, i);
    match t {
        Ok(tok) => match tok {
            TokenModel::RBracket => {},
            TokenModel::Comma => if st is AfterItem && i < j <= s.len() {
                lemma_list_wf(s, j, ar, cap, ElemState::AfterComma, acc);
            },
            _ => if !(st is AfterItem) {
                lemma_val_wf(s, i, ar, cap);
                let (r, i2, ar2) = parse_val(s, i, ar, cap);
                match r {
                    Ok(v) => if ar2.len() < cap && i < i2 <= s.len() {
                        lemma_arena_wf_push(ar2, v);
                        lemma_list_wf(s, i2, ar2.push(v), cap, ElemState::AfterItem,
                            acc.push(ar2.len() as int));
                    },
                    _ => {},
                }
            },
        },
        _ => {},
    }
}

pub proof fn lemma_obj_wf(s: Seq<u8>, i: int, ar: Seq<ValueModel>, cap: nat, st: ElemState,
    acc: Seq<(Seq<u8>, int)>)
    requires
        crate::value::arena_wf(ar),
        forall|q: int| 0 <= q < acc.len() ==> 0 <= #[trigger] acc[q].1 < ar.len(),
    ensures
        ({
            let (r, i2, ar2) = parse_obj(s, i, ar, cap, st, acc);
            crate::value::arena_wf(ar2) && ar.len() <= ar2.len()
                && (r matches Ok(qs) ==> forall|q: int| 0 <= q < qs.len()
                    ==> 0 <= #[trigger] qs[q].1 < ar2.len())
        }),
    decreases s.len() - i, 1int,
{
    let (t, j) = token_at(s, i);
    match t {
        Ok(tok) => match tok {
            TokenModel::RBrace => {},
            TokenModel::Comma => if st is AfterItem && i < j <= s.len() {
                lemma_obj_wf(s, j, ar, cap, ElemState::AfterComma, acc);
            },
            TokenModel::Str(key) => if !(st is AfterItem) {
                let (t2, j2) = token_at(s, j);
                match t2 {
                    Ok(tok2) => if tok2 is Colon && i <= j2 <= s.len() {
                        lemma_val_wf(s, j2, ar, cap);
                        let (r, i3, ar3) = parse_val(s, j2, ar, cap);
                        match r {
                            Ok(v) => if ar3.len() < cap && i < i3 <= s.len() {
                                lemma_arena_wf_push(ar3, v);
                                lemma_obj_insert_bound(acc, key, ar3.len() as int,
                                    ar3.len() + 1 as int);
                                lemma_obj_wf(s, i3, ar3.push(v), cap, ElemState::AfterItem,
                                    obj_insert(acc, key, ar3.len() as int));
                            },
                            _ => {},
                        }
                    },
                    _ => {},
                }
            },
            _ => {},
        },
        _ => {},
    }
}

/// Every success hands back a fully formed tree: the root and every stored
/// value hold handles that resolve within the returned arena, and a stored
/// value's handles only point at slots allocated before it.
pub proof fn lemma_parse_resolvable(s: Seq<u8>, cap: nat, v: ValueModel, ar: Seq<ValueModel>)
    requires
        parse_text(s, cap) == Ok::<(ValueModel, Seq<ValueModel>), JsonError>((v, ar)),
    ensures
        crate::value::arena_wf(ar),
        crate::value::val_wf(v, ar.len() as int),
{
    lemma_val_wf(s, 0, Seq::empty(), cap);
}

// ---------------------------------------------------------------------------
// Escapes decode back: lexing a rendered string literal yields its text
// ---------------------------------------------------------------------------

proof fn lemma_scan_renders(s: Seq<u8>, i: int, t: Seq<u8>, acc: Seq<u8>)
    requires
        0 <= i,
        i + render_str_from(t, 0).len() + 1 <= s.len(),
        s.subrange(i, i + render_str_from(t, 0).len()) == render_str_from(t, 0),
        s[i + render_str_from(t, 0).len()] == 34,
    ensures
        scan_string(s, i, acc) == Ok::<(Seq<u8>, int), JsonError>((acc + t,
            i + render_str_from(t, 0).len() + 1)),
    decreases t.len(),
{
    let body = render_str_from(t, 0);
    if t.len() == 0 {
        assert(body =~= Seq::<u8>::empty());
        assert(s[i] == 34);
        assert(acc + t =~= acc);
    } else {
        let b = t[0];
        let eb = escaped_byte(b);
        let t2 = t.drop_first();
        let rest_body = render_str_from(t2, 0);
        assert(t2 =~= t.subrange(1, t.len() as int));
        lemma_render_str_shift(t, 1);
        assert(render_str_from(t, 1) == render_str_from(t2, 0));
        assert(body == eb + rest_body);
        let n1 = eb.len() as int;
        let i2 = i + n1;
        assert forall|m: int| 0 <= m < n1 implies s[i + m] == eb[m] by {
            assert(s[i + m] == s.subrange(i, i + body.len() as int)[m]);
            assert(body[m] == eb[m]);
        }
        assert forall|m: int| 0 <= m < rest_body.len() implies s[i2 + m] == rest_body[m] by {
            assert(s[i2 + m] == s.subrange(i, i + body.len() as int)[n1 + m]);
            assert(body[n1 + m] == rest_body[m]);
        }
        assert(s.subrange(i2, i2 + rest_body.len() as int) =~= rest_body);
        assert(s[i2 + rest_body.len() as int] == 34) by {
            assert(i2 + rest_body.len() == i + body.len());
        }
        if b == 34 || b == 92 {
            assert(eb =~= seq![92u8, b]);
            assert(s[i + 0] == 92 && s[i + 1] == b);
            assert(crate::lexer::esc_byte(b) == Some(b));
            lemma_scan_renders(s, i2, t2, acc.push(b));
            assert(acc.push(b) + t2 =~= acc + t);
        } else if b < 32 {
            let d1 = hex_digit_of(b as int / 16);
            let d2 = hex_digit_of(b as int % 16);
            assert(eb =~= seq![92u8, 117u8, 48u8, 48u8, d1, d2]);
            assert(s[i + 0] == 92 && s[i + 1] == 117 && s[i + 2] == 48 && s[i + 3] == 48
                && s[i + 4] == d1 && s[i + 5] == d2);
            assert(crate::lexer::is_hex_digit(48) && crate::lexer::hex_val(48) == 0);
            assert(crate::lexer::is_hex_digit(d1) && crate::lexer::hex_val(d1) == b as int / 16);
            assert(crate::lexer::is_hex_digit(d2) && crate::lexer::hex_val(d2) == b as int % 16);
            let cp = crate::lexer::hex_val(s[i + 2]) * 4096 + crate::lexer::hex_val(s[i + 3])
                * 256 + crate::lexer::hex_val(s[i + 4]) * 16 + crate::lexer::hex_val(s[i + 5]);
            assert(cp == b as int);
            assert(crate::lexer::utf8_of(cp) =~= seq![b]);
            lemma_scan_renders(s, i2, t2, acc + seq![b]);
            assert(acc + seq![b] =~= acc.push(b));
            assert(acc.push(b) + t2 =~= acc + t);
            assert(scan_string(s, i, acc) == scan_string(s, i + 6, acc + crate::lexer::utf8_of(
                cp)));
            assert(acc + crate::lexer::utf8_of(cp) =~= acc.push(b));
        } else {
            assert(eb =~= seq![b]);
            assert(eb[0] == b);
            assert(s[i + 0] == b);
            lemma_scan_renders(s, i2, t2, acc.push(b));
            assert(acc.push(b) + t2 =~= acc + t);
        }
    }
}

proof fn lemma_render_str_shift(t: Seq<u8>, k: int)
    requires
        0 <= k <= t.len(),
    ensures
        render_str_from(t, k) == render_str_from(t.subrange(k, t.len() as int), 0),
    decreases t.len() - k,
{
    let tail = t.subrange(k, t.len() as int);
    if k < t.len() {
        lemma_render_str_shift(t, k + 1);
        lemma_render_str_shift(tail, 1);
        assert(t.subrange(k + 1, t.len() as int) =~= tail.subrange(1, tail.len() as int));
        assert(render_str_from(t, k) == escaped_byte(t[k]) + render_str_from(t, k + 1));
        assert(render_str_from(tail, 0) == escaped_byte(tail[0]) + render_str_from(tail, 1));
        assert(tail[0] == t[k]);
    } else {
        assert(render_str_from(t, k) =~= Seq::<u8>::empty());
        assert(render_str_from(tail, 0) =~= Seq::<u8>::empty());
    }
}

/// One direction of the round trip, for every string value: rendering a
/// string as a quoted, escaped literal and lexing the result yields back
/// exactly the text that was rendered, whatever follows the literal.
pub proof fn lemma_string_render_lex(t: Seq<u8>, rest: Seq<u8>)
    ensures
        ({
            let s = seq![34u8] + render_str_from(t, 0) + seq![34u8] + rest;
            token_at(s, 0).0 == Ok::<TokenModel, JsonError>(TokenModel::Str(t))
                && token_at(s, 0).1 == render_str_from(t, 0).len() + 2
        }),
{
    let body = render_str_from(t, 0);
    let s = seq![34u8] + body + seq![34u8] + rest;
    assert(s[0] == 34);
    assert(crate::lexer::skip_ws(s, 0) == 0);
    assert(s.subrange(1, 1 + body.len() as int) =~= body);
    assert(s[1 + body.len() as int] == 34);
    lemma_scan_renders(s, 1, t, Seq::empty());
    assert(Seq::<u8>::empty() + t =~= t);
}

// ---------------------------------------------------------------------------
// A numeric lexeme reads back: lexing a rendered number yields its lexeme
// ---------------------------------------------------------------------------

proof fn lemma_num_run_bad(s: Seq<u8>, k: int, e: int)
    ensures
        crate::lexer::num_run(s, k, e, crate::lexer::NumState::Bad)
            == crate::lexer::NumState::Bad,
    decreases e - k,
{
    if e <= s.len() && 0 <= k && k < e {
        assert(crate::lexer::num_step(crate::lexer::NumState::Bad, s[k])
            == crate::lexer::NumState::Bad);
        lemma_num_run_bad(s, k + 1, e);
    }
}

proof fn lemma_num_run_nonbyte(s: Seq<u8>, k: int, e: int, st: crate::lexer::NumState, m: int)
    requires
        0 <= k <= m < e <= s.len(),
        !crate::lexer::is_num_byte(s[m]),
    ensures
        crate::lexer::num_run(s, k, e, st) == crate::lexer::NumState::Bad,
    decreases e - k,
{
    if k == m {
        assert(crate::lexer::num_step(st, s[k]) == crate::lexer::NumState::Bad);
        lemma_num_run_bad(s, k + 1, e);
    } else {
        lemma_num_run_nonbyte(s, k + 1, e, crate::lexer::num_step(st, s[k]), m);
    }
}

proof fn lemma_valid_num_bytes(t: Seq<u8>)
    requires
        t.len() > 0,
        crate::lexer::valid_num_range(t, 0, t.len() as int),
    ensures
        forall|m: int| 0 <= m < t.len() ==> crate::lexer::is_num_byte(#[trigger] t[m]),
        crate::lexer::is_digit(t[0]) || t[0] == 45,
{
    assert forall|m: int| 0 <= m < t.len() implies crate::lexer::is_num_byte(
        #[trigger] t[m]) by {
        if !crate::lexer::is_num_byte(t[m]) {
            lemma_num_run_nonbyte(t, 0, t.len() as int, crate::lexer::NumState::Start, m);
        }
    }
    if !(crate::lexer::is_digit(t[0]) || t[0] == 45) {
        assert(crate::lexer::num_step(crate::lexer::NumState::Start, t[0])
            == crate::lexer::NumState::Bad);
        lemma_num_run_bad(t, 1, t.len() as int);
    }
}

proof fn lemma_num_end_range(s: Seq<u8>, k: int, l: int)
    requires
        0 <= k <= l <= s.len(),
        forall|m: int| k <= m < l ==> crate::lexer::is_num_byte(#[trigger] s[m]),
        l == s.len() || !crate::lexer::is_num_byte(s[l]),
    ensures
        crate::lexer::num_end(s, k) == l,
    decreases l - k,
{
    if k < l {
        lemma_num_end_range(s, k + 1, l);
    }
}

proof fn lemma_num_run_eq(s1: Seq<u8>, s2: Seq<u8>, k: int, e: int, st: crate::lexer::NumState)
    requires
        e <= s1.len(),
        e <= s2.len(),
        forall|m: int| k <= m < e ==> #[trigger] s1[m] == s2[m],
    ensures
        crate::lexer::num_run(s1, k, e, st) == crate::lexer::num_run(s2, k, e, st),
    decreases e - k,
{
    if 0 <= k && k < e {
        lemma_num_run_eq(s1, s2, k + 1, e, crate::lexer::num_step(st, s1[k]));
    }
}

/// One direction of the round trip, for every number value: a number is
/// rendered as its validated lexeme, and lexing that text yields back
/// exactly the lexeme, whatever follows it as long as no digit, sign,
/// dot or exponent letter touches it.
pub proof fn lemma_number_render_lex(t: Seq<u8>, rest: Seq<u8>)
    requires
        t.len() > 0,
        crate::lexer::valid_num_range(t, 0, t.len() as int),
        rest.len() == 0 || !crate::lexer::is_num_byte(rest[0]),
    ensures
        ({
            let s = t + rest;
            token_at(s, 0) == (Ok::<TokenModel, JsonError>(TokenModel::Num(t)), t.len() as int)
        }),
{
    let s = t + rest;
    lemma_valid_num_bytes(t);
    assert forall|m: int| 0 <= m < t.len() implies #[trigger] s[m] == t[m] by {}
    assert(s[0] == t[0]);
    assert(crate::lexer::skip_ws(s, 0) == 0);
    assert(forall|m: int| 0 <= m < t.len() ==> crate::lexer::is_num_byte(#[trigger] s[m]));
    assert(t.len() as int == s.len() || !crate::lexer::is_num_byte(s[t.len() as int]));
    lemma_num_end_range(s, 0, t.len() as int);
    lemma_num_run_eq(s, t, 0, t.len() as int, crate::lexer::NumState::Start);
    assert(crate::lexer::valid_num_range(s, 0, t.len() as int));
    assert(s.subrange(0, t.len() as int) =~= t);
}

// ---------------------------------------------------------------------------
// Every numeric lexeme a parse stores is itself a valid number
// ---------------------------------------------------------------------------

/// A non-empty lexeme following the numeric grammar.
pub open spec fn num_lexeme_ok(t: Seq<u8>) -> bool {
    t.len() > 0 && crate::lexer::valid_num_range(t, 0, t.len() as int)
}

/// A number value carries a valid lexeme.
pub open spec fn val_num_ok(v: ValueModel) -> bool {
    v is Num ==> num_lexeme_ok(v->Num_0)
}

/// Every number the arena holds carries a valid lexeme.
pub open spec fn arena_num_ok(ar: Seq<ValueModel>) -> bool {
    forall|j: int| 0 <= j < ar.len() ==> val_num_ok(#[trigger] ar[j])
}

proof fn lemma_num_run_shift(s: Seq<u8>, j: int, e: int, k: int, st: crate::lexer::NumState)
    requires
        0 <= j <= k <= e <= s.len(),
    ensures
        crate::lexer::num_run(s, k, e, st) == crate::lexer::num_run(s.subrange(j, e), k - j,
            e - j, st),
    decreases e - k,
{
    if k < e {
        assert(s.subrange(j, e)[k - j] == s[k]);
        lemma_num_run_shift(s, j, e, k + 1, crate::lexer::num_step(st, s[k]));
    }
}

proof fn lemma_token_num_valid(s: Seq<u8>, i: int, txt: Seq<u8>)
    requires
        0 <= i <= s.len(),
        token_at(s, i).0 == Ok::<TokenModel, JsonError>(TokenModel::Num(txt)),
    ensures
        num_lexeme_ok(txt),
{
    crate::lexer::lemma_skip_ws_bounds(s, i);
    let j = crate::lexer::skip_ws(s, i);
    let e = crate::lexer::num_end(s, j);
    crate::lexer::lemma_num_end_bounds(s, j + 1);
    assert(crate::lexer::num_end(s, j) == crate::lexer::num_end(s, j + 1));
    lemma_num_run_shift(s, j, e, j, crate::lexer::NumState::Start);
}

proof fn lemma_arena_num_push(ar: Seq<ValueModel>, v: ValueModel)
    requires
        arena_num_ok(ar),
        val_num_ok(v),
    ensures
        arena_num_ok(ar.push(v)),
{
    assert forall|j: int| 0 <= j < ar.push(v).len() implies val_num_ok(
        #[trigger] ar.push(v)[j]) by {
        if j < ar.len() {
            assert(ar.push(v)[j] == ar[j]);
        } else {
            assert(ar.push(v)[j] == v);
        }
    }
}

pub proof fn lemma_val_nums(s: Seq<u8>, i: int, ar: Seq<ValueModel>, cap: nat)
    requires
        0 <= i <= s.len(),
        arena_num_ok(ar),
    ensures
        ({
            let (r, i2, ar2) = parse_val(s, i, ar, cap);
            arena_num_ok(ar2) && (r matches Ok(v) ==> val_num_ok(v))
        }),
    decreases s.len() - i, 0int,
{
    let (t, j) = token_at(s, i);
    match t {
        Ok(tok) => match tok {
            TokenModel::Num(txt) => {
                lemma_token_num_valid(s, i, txt);
            },
            TokenModel::LBracket => if i < j <= s.len() {
                lemma_list_nums(s, j, ar, cap, ElemState::Start, Seq::empty());
            },
            TokenModel::LBrace => if i < j <= s.len() {
                lemma_obj_nums(s, j, ar, cap, ElemState::Start, Seq::empty());
            },
            _ => {},
        },
        _ => {},
    }
}

pub proof fn lemma_list_nums(s: Seq<u8>, i: int, ar: Seq<ValueModel>, cap: nat, st: ElemState,
    acc: Seq<int>)
    requires
        0 <= i <= s.len(),
        arena_num_ok(ar),
    ensures
        arena_num_ok(parse_list(s, i, ar, cap, st, acc).2),
    decreases s.len() - i, 1int,
{
    let (t, j) = token_at(s, i);
    match t {
        Ok(tok) => match tok {
            TokenModel::RBracket => {},
            TokenModel::Comma => if st is AfterItem && i < j <= s.len() {
                lemma_list_nums(s, j, ar, cap, ElemState::AfterComma, acc);
            },
            _ => if !(st is AfterItem) {
                lemma_val_nums(s, i, ar, cap);
                let (r, i2, ar2) = parse_val(s, i, ar, cap);
                match r {
                    Ok(v) => if ar2.len() < cap && i < i2 <= s.len() {
                        lemma_arena_num_push(ar2, v);
                        lemma_list_nums(s, i2, ar2.push(v), cap, ElemState::AfterItem,
                            acc.push(ar2.len() as int));
                    },
                    _ => {},
                }
            },
        },
        _ => {},
    }
}

pub proof fn lemma_obj_nums(s: Seq<u8>, i: int, ar: Seq<ValueModel>, cap: nat, st: ElemState,
    acc: Seq<(Seq<u8>, int)>)
    requires
        0 <= i <= s.len(),
        arena_num_ok(ar),
    ensures
        arena_num_ok(parse_obj(s, i, ar, cap, st, acc).2),
    decreases s.len() - i, 1int,
{
    let (t, j) = token_at(s, i);
    match t {
        Ok(tok) => match tok {
            TokenModel::RBrace => {},
            TokenModel::Comma => if st is AfterItem && i < j <= s.len() {
                lemma_obj_nums(s, j, ar, cap, ElemState::AfterComma, acc);
            },
            TokenModel::Str(key) => if !(st is AfterItem) {
                let (t2, j2) = token_at(s, j);
                match t2 {
                    Ok(tok2) => if tok2 is Colon && i <= j2 <= s.len() {
                        lemma_val_nums(s, j2, ar, cap);
                        let (r, i3, ar3) = parse_val(s, j2, ar, cap);
                        match r {
                            Ok(v) => if ar3.len() < cap && i < i3 <= s.len() {
                                lemma_arena_num_push(ar3, v);
                                lemma_obj_nums(s, i3, ar3.push(v), cap, ElemState::AfterItem,
                                    obj_insert(acc, key, ar3.len() as int));
                            },
                            _ => {},
                        }
                    },
                    _ => {},
                }
            },
            _ => {},
        },
        _ => {},
    }
}

/// Every number a parse hands back — in the root or in the arena — holds
/// a non-empty lexeme that itself follows the numeric grammar, so its
/// rendered text reads back as the same number.
pub proof fn lemma_parse_numbers_valid(s: Seq<u8>, cap: nat, v: ValueModel, ar: Seq<ValueModel>)
    requires
        parse_text(s, cap) == Ok::<(ValueModel, Seq<ValueModel>), JsonError>((v, ar)),
    ensures
        val_num_ok(v),
        arena_num_ok(ar),
{
    lemma_val_nums(s, 0, Seq::empty(), cap);
}

// ---------------------------------------------------------------------------
// Keywords read back: lexing a rendered keyword yields its token
// ---------------------------------------------------------------------------

proof fn lemma_ident_end_range(s: Seq<u8>, k: int, l: int)
    requires
        0 <= k <= l <= s.len(),
        forall|m: int| k <= m < l ==> crate::lexer::is_alnum(#[trigger] s[m]),
        l == s.len() || !crate::lexer::is_alnum(s[l]),
    ensures
        crate::lexer::ident_end(s, k) == l,
    decreases l - k,
{
    if k < l {
        lemma_ident_end_range(s, k + 1, l);
    }
}

proof fn lemma_word_lex(w: Seq<u8>, rest: Seq<u8>)
    requires
        w.len() > 0,
        forall|m: int| 0 <= m < w.len() ==> crate::lexer::is_alnum(#[trigger] w[m]),
        rest.len() == 0 || !crate::lexer::is_alnum(rest[0]),
    ensures
        ({
            let s = w + rest;
            crate::lexer::skip_ws(s, 0) == 0 && crate::lexer::ident_end(s, 0) == w.len()
                && s.subrange(0, w.len() as int) == w
        }),
{
    let s = w + rest;
    assert forall|m: int| 0 <= m < w.len() implies #[trigger] s[m] == w[m] by {}
    assert(s[0] == w[0]);
    assert(crate::lexer::skip_ws(s, 0) == 0);
    assert(forall|m: int| 0 <= m < w.len() ==> crate::lexer::is_alnum(#[trigger] s[m]));
    assert(w.len() as int == s.len() || !crate::lexer::is_alnum(s[w.len() as int]));
    lemma_ident_end_range(s, 0, w.len() as int);
    assert(s.subrange(0, w.len() as int) =~= w);
}

/// One direction of the round trip, for the keyword values: `true`,
/// `false` and `null` render as themselves, and lexing each yields its
/// token back, whatever follows as long as no letter or digit touches it.
pub proof fn lemma_keyword_render_lex(rest: Seq<u8>)
    requires
        rest.len() == 0 || !crate::lexer::is_alnum(rest[0]),
    ensures
        token_at(crate::lexer::word_true() + rest, 0) == (Ok::<TokenModel, JsonError>(
            TokenModel::True), 4int),
        token_at(crate::lexer::word_false() + rest, 0) == (Ok::<TokenModel, JsonError>(
            TokenModel::False), 5int),
        token_at(crate::lexer::word_null() + rest, 0) == (Ok::<TokenModel, JsonError>(
            TokenModel::Null), 4int),
{
    lemma_word_lex(crate::lexer::word_true(), rest);
    lemma_word_lex(crate::lexer::word_false(), rest);
    lemma_word_lex(crate::lexer::word_null(), rest);
    assert(crate::lexer::word_true() != crate::lexer::word_false());
    assert(crate::lexer::word_true() != crate::lexer::word_null()) by {
        assert(crate::lexer::word_true()[0] != crate::lexer::word_null()[0]);
    }
    assert(crate::lexer::word_false() != crate::lexer::word_null());
}

// ---------------------------------------------------------------------------
// Object keys stay unique: a duplicate key overwrites, never doubles
// ---------------------------------------------------------------------------

/// No entry of `acc` carries `key`.
pub open spec fn key_absent(acc: Seq<(Seq<u8>, int)>, key: Seq<u8>) -> bool {
    forall|q: int| 0 <= q < acc.len() ==> (#[trigger] acc[q]).0 != key
}

proof fn lemma_obj_insert_absent(acc: Seq<(Seq<u8>, int)>, key: Seq<u8>, h: int, k2: Seq<u8>)
    requires
        key_absent(acc, k2),
        k2 != key,
    ensures
        key_absent(obj_insert(acc, key, h), k2),
    decreases acc.len(),
{
    let res = obj_insert(acc, key, h);
    if acc.len() == 0 {
        assert forall|q: int| 0 <= q < res.len() implies (#[trigger] res[q]).0 != k2 by {
            assert(res[q] == (key, h));
        }
    } else if acc[0].0 == key {
        assert forall|q: int| 0 <= q < res.len() implies (#[trigger] res[q]).0 != k2 by {
            if q == 0 {
                assert(res[q] == (key, h));
            } else {
                assert(res[q] == acc[q]);
            }
        }
    } else {
        assert(forall|q: int| 0 <= q < acc.drop_first().len()
            ==> (#[trigger] acc.drop_first()[q]).0 != k2);
        lemma_obj_insert_absent(acc.drop_first(), key, h, k2);
        let rest = obj_insert(acc.drop_first(), key, h);
        assert forall|q: int| 0 <= q < res.len() implies (#[trigger] res[q]).0 != k2 by {
            if q == 0 {
                assert(res[q] == acc[0]);
            } else {
                assert(res[q] == rest[q - 1]);
            }
        }
    }
}

proof fn lemma_obj_insert_unique(acc: Seq<(Seq<u8>, int)>, key: Seq<u8>, h: int)
    requires
        crate::value::keys_unique(acc),
    ensures
        crate::value::keys_unique(obj_insert(acc, key, h)),
    decreases acc.len(),
{
    let res = obj_insert(acc, key, h);
    if acc.len() == 0 {
        assert(res.len() == 1);
    } else if acc[0].0 == key {
        assert forall|q1: int, q2: int| 0 <= q1 < q2 < res.len() implies (#[trigger] res[q1]).0
            != (#[trigger] res[q2]).0 by {
            if q1 == 0 {
                assert(res[q1] == (key, h));
                assert(res[q2] == acc[q2]);
                assert(acc[0].0 != acc[q2].0);
            } else {
                assert(res[q1] == acc[q1]);
                assert(res[q2] == acc[q2]);
            }
        }
    } else {
        assert(forall|q1: int, q2: int| 0 <= q1 < q2 < acc.drop_first().len()
            ==> (#[trigger] acc.drop_first()[q1]).0 != (#[trigger] acc.drop_first()[q2]).0);
        lemma_obj_insert_unique(acc.drop_first(), key, h);
        assert(forall|q: int| 0 <= q < acc.drop_first().len()
            ==> (#[trigger] acc.drop_first()[q]).0 != acc[0].0);
        lemma_obj_insert_absent(acc.drop_first(), key, h, acc[0].0);
        let rest = obj_insert(acc.drop_first(), key, h);
        assert forall|q1: int, q2: int| 0 <= q1 < q2 < res.len() implies (#[trigger] res[q1]).0
            != (#[trigger] res[q2]).0 by {
            if q1 == 0 {
                assert(res[q1] == acc[0]);
                assert(res[q2] == rest[q2 - 1]);
            } else {
                assert(res[q1] == rest[q1 - 1]);
                assert(res[q2] == rest[q2 - 1]);
            }
        }
    }
}

proof fn lemma_arena_keys_push(ar: Seq<ValueModel>, v: ValueModel)
    requires
        crate::value::arena_keys_unique(ar),
        crate::value::val_keys_unique(v),
    ensures
        crate::value::arena_keys_unique(ar.push(v)),
{
    assert forall|j: int| 0 <= j < ar.push(v).len() implies crate::value::val_keys_unique(
        #[trigger] ar.push(v)[j]) by {
        if j < ar.len() {
            assert(ar.push(v)[j] == ar[j]);
        } else {
            assert(ar.push(v)[j] == v);
        }
    }
}

pub proof fn lemma_val_keys(s: Seq<u8>, i: int, ar: Seq<ValueModel>, cap: nat)
    requires
        crate::value::arena_keys_unique(ar),
    ensures
        ({
            let (r, i2, ar2) = parse_val(s, i, ar, cap);
            crate::value::arena_keys_unique(ar2)
                && (r matches Ok(v) ==> crate::value::val_keys_unique(v))
        }),
    decreases s.len() - i, 0int,
{
    let (t, j) = token_at(s, i);
    match t {
        Ok(tok) => match tok {
            TokenModel::LBracket => if i < j <= s.len() {
                lemma_list_keys(s, j, ar, cap, ElemState::Start, Seq::empty());
            },
            TokenModel::LBrace => if i < j <= s.len() {
                lemma_obj_keys(s, j, ar, cap, ElemState::Start, Seq::empty());
            },
            _ => {},
        },
        _ => {},
    }
}

pub proof fn lemma_list_keys(s: Seq<u8>, i: int, ar: Seq<ValueModel>, cap: nat, st: ElemState,
    acc: Seq<int>)
    requires
        crate::value::arena_keys_unique(ar),
    ensures
        crate::value::arena_keys_unique(parse_list(s, i, ar, cap, st, acc).2),
    decreases s.len() - i, 1int,
{
    let (t, j) = token_at(s, i);
    match t {
        Ok(tok) => match tok {
            TokenModel::RBracket => {},
            TokenModel::Comma => if st is AfterItem && i < j <= s.len() {
                lemma_list_keys(s, j, ar, cap, ElemState::AfterComma, acc);
            },
            _ => if !(st is AfterItem) {
                lemma_val_keys(s, i, ar, cap);
                let (r, i2, ar2) = parse_val(s, i, ar, cap);
                match r {
                    Ok(v) => if ar2.len() < cap && i < i2 <= s.len() {
                        lemma_arena_keys_push(ar2, v);
                        lemma_list_keys(s, i2, ar2.push(v), cap, ElemState::AfterItem,
                            acc.push(ar2.len() as int));
                    },
                    _ => {},
                }
            },
        },
        _ => {},
    }
}

pub proof fn lemma_obj_keys(s: Seq<u8>, i: int, ar: Seq<ValueModel>, cap: nat, st: ElemState,
    acc: Seq<(Seq<u8>, int)>)
    requires
        crate::value::arena_keys_unique(ar),
        crate::value::keys_unique(acc),
    ensures
        ({
            let (r, i2, ar2) = parse_obj(s, i, ar, cap, st, acc);
            crate::value::arena_keys_unique(ar2)
                && (r matches Ok(qs) ==> crate::value::keys_unique(qs))
        }),
    decreases s.len() - i, 1int,
{
    let (t, j) = token_at(s, i);
    match t {
        Ok(tok) => match tok {
            TokenModel::RBrace => {},
            TokenModel::Comma => if st is AfterItem && i < j <= s.len() {
                lemma_obj_keys(s, j, ar, cap, ElemState::AfterComma, acc);
            },
            TokenModel::Str(key) => if !(st is AfterItem) {
                let (t2, j2) = token_at(s, j);
                match t2 {
                    Ok(tok2) => if tok2 is Colon && i <= j2 <= s.len() {
                        lemma_val_keys(s, j2, ar, cap);
                        let (r, i3, ar3) = parse_val(s, j2, ar, cap);
                        match r {
                            Ok(v) => if ar3.len() < cap && i < i3 <= s.len() {
                                lemma_arena_keys_push(ar3, v);
                                lemma_obj_insert_unique(acc, key, ar3.len() as int);
                                lemma_obj_keys(s, i3, ar3.push(v), cap, ElemState::AfterItem,
                                    obj_insert(acc, key, ar3.len() as int));
                            },
                            _ => {},
                        }
                    },
                    _ => {},
                }
            },
            _ => {},
        },
        _ => {},
    }
}

/// In every object a parse builds — the root or any value in the arena —
/// each key maps to exactly one handle: a duplicate key in the source
/// overwrites the earlier entry and never doubles it.
pub proof fn lemma_parse_keys_unique(s: Seq<u8>, cap: nat, v: ValueModel, ar: Seq<ValueModel>)
    requires
        parse_text(s, cap) == Ok::<(ValueModel, Seq<ValueModel>), JsonError>((v, ar)),
    ensures
        crate::value::val_keys_unique(v),
        crate::value::arena_keys_unique(ar),
{
    lemma_val_keys(s, 0, Seq::empty(), cap);
}

// ---------------------------------------------------------------------------
// The capacity boundary, for a whole parse
// ---------------------------------------------------------------------------

/// A parse that succeeds allocating `ar.len()` values succeeds identically
/// under any capacity that can hold them: exactly the required capacity is
/// always enough, and capacity beyond the allocated count never changes
/// the result.
pub proof fn lemma_capacity_sufficient(s: Seq<u8>, cap: nat, cap2: nat, v: ValueModel,
    ar: Seq<ValueModel>)
    requires
        parse_text(s, cap) == Ok::<(ValueModel, Seq<ValueModel>), JsonError>((v, ar)),
        ar.len() <= cap2,
    ensures
        parse_text(s, cap2) == Ok::<(ValueModel, Seq<ValueModel>), JsonError>((v, ar)),
{
    lemma_val_capacity_up(s, 0, Seq::empty(), cap, cap2);
}

/// A parse that succeeds allocating `ar.len()` values fails with
/// `CapacityExceeded`, and with nothing else, under any smaller capacity.
pub proof fn lemma_capacity_insufficient(s: Seq<u8>, cap: nat, cap2: nat, v: ValueModel,
    ar: Seq<ValueModel>)
    requires
        parse_text(s, cap) == Ok::<(ValueModel, Seq<ValueModel>), JsonError>((v, ar)),
        cap2 < ar.len(),
    ensures
        parse_text(s, cap2) == Err::<(ValueModel, Seq<ValueModel>), JsonError>(
            JsonError::CapacityExceeded),
{
    lemma_val_capacity_down(s, 0, Seq::empty(), cap, cap2);
}

} // verus!
