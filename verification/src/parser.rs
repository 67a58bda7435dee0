use vstd::prelude::*;
use crate::arena::Allocator;
use crate::arena::Id;
use crate::err::JsonError;
use crate::lexer::lemma_token_at_bounds;
use crate::lexer::next_token;
use crate::lexer::token_at;
use crate::token::Token;
use crate::token::TokenModel;
use crate::value::JsonValue;
use crate::value::ValueModel;
use crate::value::ids_of;
use crate::value::models;
use crate::value::pairs_of;

verus! {

/// Where a list or object body stands: at its opening bracket, just past a
/// separating comma, or just past an element.
#[derive(Clone, Copy, Debug)]
pub enum ElemState {
    Start,
    AfterComma,
    AfterItem,
}

/// Object insertion with last-write-wins on duplicate keys: the first
/// entry carrying `key` has its handle replaced in place, and a new key
/// is appended.
pub open spec fn obj_insert(acc: Seq<(Seq<u8>, int)>, key: Seq<u8>, h: int) -> Seq<(Seq<u8>, int)>
    decreases acc.len(),
{
    if acc.len() == 0 {
        seq![(key, h)]
    } else if acc[0].0 == key {
        seq![(key, h)] + acc.drop_first()
    } else {
        seq![acc[0]] + obj_insert(acc.drop_first(), key, h)
    }
}

pub proof fn lemma_obj_insert_found(acc: Seq<(Seq<u8>, int)>, key: Seq<u8>, h: int, m: int)
    requires
        0 <= m < acc.len(),
        acc[m].0 == key,
        forall|q: int| 0 <= q < m ==> acc[q].0 != key,
    ensures
        obj_insert(acc, key, h) == acc.update(m, (key, h)),
    decreases acc.len(),
{
    if m == 0 {
        assert(obj_insert(acc, key, h) =~= acc.update(0, (key, h)));
    } else {
        assert(forall|q: int| 0 <= q < m - 1 ==> acc.drop_first()[q].0 != key);
        lemma_obj_insert_found(acc.drop_first(), key, h, m - 1);
        assert(seq![acc[0]] + acc.drop_first().update(m - 1, (key, h)) =~= acc.update(m, (key, h)));
    }
}

pub proof fn lemma_obj_insert_missing(acc: Seq<(Seq<u8>, int)>, key: Seq<u8>, h: int)
    requires
        forall|q: int| 0 <= q < acc.len() ==> acc[q].0 != key,
    ensures
        obj_insert(acc, key, h) == acc.push((key, h)),
    decreases acc.len(),
{
    if acc.len() == 0 {
        assert(obj_insert(acc, key, h) =~= acc.push((key, h)));
    } else {
        assert(forall|q: int| 0 <= q < acc.drop_first().len() ==> acc.drop_first()[q].0 != key);
        lemma_obj_insert_missing(acc.drop_first(), key, h);
        assert(seq![acc[0]] + acc.drop_first().push((key, h)) =~= acc.push((key, h)));
    }
}

// ---------------------------------------------------------------------------
// The grammar, as one value / list body / object body at a position
// ---------------------------------------------------------------------------

/// Parses one value at `i`. Yields the value's model, the index just past
/// it, and the arena contents after the values allocated along the way;
/// on an error only the error is meaningful.
pub open spec fn parse_val(s: Seq<u8>, i: int, ar: Seq<ValueModel>, cap: nat)
    -> (Result<ValueModel, JsonError>, int, Seq<ValueModel>)
    decreases s.len() - i, 0int,
{
    let (t, j) = token_at(s, i);
    match t {
        Err(e) => (Err(e), j, ar),
        Ok(tok) => match tok {
            TokenModel::True => (Ok(ValueModel::Bool(true)), j, ar),
            TokenModel::False => (Ok(ValueModel::Bool(false)), j, ar),
            TokenModel::Null => (Ok(ValueModel::Null), j, ar),
            TokenModel::Str(txt) => (Ok(ValueModel::Str(txt)), j, ar),
            TokenModel::Num(txt) => (Ok(ValueModel::Num(txt)), j, ar),
            TokenModel::LBracket => if i < j <= s.len() {
                let (r, i2, ar2) = parse_list(s, j, ar, cap, ElemState::Start, Seq::empty());
                match r {
                    Ok(hs) => (Ok(ValueModel::List(hs)), i2, ar2),
                    Err(e) => (Err(e), i2, ar2),
                }
            } else {
                (Err(JsonError::UnexpectedEof), j, ar)
            },
            TokenModel::LBrace => if i < j <= s.len() {
                let (r, i2, ar2) = parse_obj(s, j, ar, cap, ElemState::Start, Seq::empty());
                match r {
                    Ok(ps) => (Ok(ValueModel::Object(ps)), i2, ar2),
                    Err(e) => (Err(e), i2, ar2),
                }
            } else {
                (Err(JsonError::UnexpectedEof), j, ar)
            },
            TokenModel::Eof => (Err(JsonError::UnexpectedEof), j, ar),
            TokenModel::Illegal => (Err(JsonError::IllegalIdentifier), j, ar),
            _ => (Err(JsonError::UnexpectedToken), j, ar),
        },
    }
}

/// Parses a list body from `i` (just past `[` or a separator). A comma is
/// required between elements and allowed neither before the first element
/// nor directly before `]`.
pub open spec fn parse_list(s: Seq<u8>, i: int, ar: Seq<ValueModel>, cap: nat, st: ElemState,
    acc: Seq<int>) -> (Result<Seq<int>, JsonError>, int, Seq<ValueModel>)
    decreases s.len() - i, 1int,
{
    let (t, j) = token_at(s, i);
    match t {
        Err(e) => (Err(e), j, ar),
        Ok(tok) => match tok {
            TokenModel::RBracket => if st is AfterComma {
                (Err(JsonError::UnexpectedToken), j, ar)
            } else {
                (Ok(acc), j, ar)
            },
            TokenModel::Comma => if st is AfterItem {
                if i < j <= s.len() {
                    parse_list(s, j, ar, cap, ElemState::AfterComma, acc)
                } else {
                    (Err(JsonError::UnexpectedEof), j, ar)
                }
            } else {
                (Err(JsonError::UnexpectedToken), j, ar)
            },
            _ => if st is AfterItem {
                (Err(JsonError::UnexpectedToken), j, ar)
            } else {
                let (r, i2, ar2) = parse_val(s, i, ar, cap);
                match r {
                    Err(e) => (Err(e), i2, ar2),
                    Ok(v) => if ar2.len() >= cap {
                        (Err(JsonError::CapacityExceeded), i2, ar2)
                    } else if i < i2 <= s.len() {
                        parse_list(s, i2, ar2.push(v), cap, ElemState::AfterItem,
                            acc.push(ar2.len() as int))
                    } else {
                        (Err(JsonError::UnexpectedEof), i2, ar2)
                    },
                }
            },
        },
    }
}

/// Parses an object body from `i` (just past `{` or a separator). Each
/// entry is a string key, a colon, and a value; comma placement follows
/// the same rules as lists; a duplicate key overwrites its earlier entry.
pub open spec fn parse_obj(s: Seq<u8>, i: int, ar: Seq<ValueModel>, cap: nat, st: ElemState,
    acc: Seq<(Seq<u8>, int)>) -> (Result<Seq<(Seq<u8>, int)>, JsonError>, int, Seq<ValueModel>)
    decreases s.len() - i, 1int,
{
    let (t, j) = token_at(s, i);
    match t {
        Err(e) => (Err(e), j, ar),
        Ok(tok) => match tok {
            TokenModel::RBrace => if st is AfterComma {
                (Err(JsonError::UnexpectedToken), j, ar)
            } else {
                (Ok(acc), j, ar)
            },
            TokenModel::Comma => if st is AfterItem {
                if i < j <= s.len() {
                    parse_obj(s, j, ar, cap, ElemState::AfterComma, acc)
                } else {
                    (Err(JsonError::UnexpectedEof), j, ar)
                }
            } else {
                (Err(JsonError::UnexpectedToken), j, ar)
            },
            TokenModel::Str(key) => if st is AfterItem {
                (Err(JsonError::UnexpectedToken), j, ar)
            } else {
                let (t2, j2) = token_at(s, j);
                match t2 {
                    Err(e) => (Err(e), j2, ar),
                    Ok(tok2) => if tok2 is Colon {
                        if i <= j2 <= s.len() {
                            let (r, i3, ar3) = parse_val(s, j2, ar, cap);
                            match r {
                                Err(e) => (Err(e), i3, ar3),
                                Ok(v) => if ar3.len() >= cap {
                                    (Err(JsonError::CapacityExceeded), i3, ar3)
                                } else if i < i3 <= s.len() {
                                    parse_obj(s, i3, ar3.push(v), cap, ElemState::AfterItem,
                                        obj_insert(acc, key, ar3.len() as int))
                                } else {
                                    (Err(JsonError::UnexpectedEof), i3, ar3)
                                },
                            }
                        } else {
                            (Err(JsonError::UnexpectedEof), j2, ar)
                        }
                    } else {
                        (Err(JsonError::ExpectedColon), j2, ar)
                    },
                }
            },
            _ => if st is AfterItem {
                (Err(JsonError::UnexpectedToken), j, ar)
            } else {
                (Err(JsonError::ExpectedKeyString), j, ar)
            },
        },
    }
}

/// Parses one root value from the start of the text against an empty
/// arena of capacity `cap`. Anything after the root value is not read.
pub open spec fn parse_text(s: Seq<u8>, cap: nat) -> Result<(ValueModel, Seq<ValueModel>),
    JsonError> {
    let (r, i2, ar2) = parse_val(s, 0, Seq::empty(), cap);
    match r {
        Ok(v) => Ok((v, ar2)),
        Err(e) => Err(e),
    }
}

// ---------------------------------------------------------------------------
// The recursive-descent parser
// ---------------------------------------------------------------------------

/// Byte-for-byte equality of two byte vectors.
#[verifier::loop_isolation(false)]
fn bytes_eq(a: &Vec<u8>, b: &Vec<u8>) -> (r: bool)
    ensures
        r == (a@ == b@),
{
    if a.len() != b.len() {
        return false;
    }
    let mut m: usize = 0;
    while m < a.len()
        invariant
            m <= a@.len(),
            forall|q: int| 0 <= q < m ==> a@[q] == b@[q],
        decreases a@.len() - m,
    {
        if a[m] != b[m] {
            return false;
        }
        m = m + 1;
    }
    proof {
        assert(a@ =~= b@);
    }
    true
}

/// Replaces the handle of the first entry carrying `key`, or appends a new
/// entry, exactly as `obj_insert` says.
#[verifier::loop_isolation(false)]
fn insert_pair(ps: &mut Vec<(Vec<u8>, Id<JsonValue>)>, key: Vec<u8>, id: Id<JsonValue>)
    ensures
        pairs_of(final(ps)@) == obj_insert(pairs_of(old(ps)@), key@, id@),
{
    let mut m: usize = 0;
    while m < ps.len()
        invariant
            m <= ps@.len(),
            ps@ == old(ps)@,
            forall|q: int| 0 <= q < m ==> pairs_of(ps@)[q].0 != key@,
        decreases ps@.len() - m,
    {
        if bytes_eq(&ps[m].0, &key) {
            proof {
                lemma_obj_insert_found(pairs_of(ps@), key@, id@, m as int);
            }
            ps.set(m, (key, id));
            proof {
                assert(pairs_of(ps@) =~= pairs_of(old(ps)@).update(m as int, (key@, id@)));
            }
            return;
        }
        m = m + 1;
    }
    proof {
        lemma_obj_insert_missing(pairs_of(ps@), key@, id@);
    }
    ps.push((key, id));
    proof {
        assert(pairs_of(ps@) =~= pairs_of(old(ps)@).push((key@, id@)));
    }
}

/// The recursive-descent parser: a byte cursor into the source text and
/// the arena that takes every nested value met on the way down.
pub struct Par {
    /// The position of the next unread byte of the source.
    pub pos: usize,
    /// The arena owning every parsed value except the root.
    pub mem: Allocator<JsonValue>,
}

impl Par {
    /// Parses one value beginning at the current position, leaving the
    /// position just past it. The result, the new position and the arena
    /// contents are exactly those of `parse_val`; on an error only the
    /// error itself is pinned down, since no partial tree is handed out.
    #[verifier::loop_isolation(false)]
    pub fn go_parse(&mut self, src: &[u8]) -> (r: Result<JsonValue, JsonError>)
        requires
            old(self).pos <= src@.len(),
        ensures
            final(self).mem.cap() == old(self).mem.cap(),
            final(self).pos <= src@.len(),
            ({
                let (r0, i2, ar2) = parse_val(src@, old(self).pos as int, models(old(self).mem@),
                    old(self).mem.cap());
                match r {
                    Ok(v) => (r0 matches Ok(v0) && v@ == v0
                        && final(self).pos as int == i2
                        && models(final(self).mem@) == ar2
                        && old(self).pos < final(self).pos),
                    Err(e) => (r0 matches Err(e0) && e0 == e),
                }
            }),
        decreases src@.len() - old(self).pos, 0int,
    {
        proof {
            lemma_token_at_bounds(src@, self.pos as int);
        }
        let (t, j) = next_token(src, self.pos);
        let tok = match t {
            Ok(tok) => tok,
            Err(e) => {
                return Err(e);
            },
        };
        match tok {
            Token::True => {
                self.pos = j;
                Ok(JsonValue::Bool(true))
            },
            Token::False => {
                self.pos = j;
                Ok(JsonValue::Bool(false))
            },
            Token::Null => {
                self.pos = j;
                Ok(JsonValue::Null)
            },
            Token::Str(txt) => {
                self.pos = j;
                Ok(JsonValue::String(txt))
            },
            Token::Num(txt) => {
                self.pos = j;
                Ok(JsonValue::Number(txt))
            },
            Token::LBracket => {
                self.pos = j;
                match self.parse_list_body(src) {
                    Ok(list) => Ok(JsonValue::List(list)),
                    Err(e) => Err(e),
                }
            },
            Token::LBrace => {
                self.pos = j;
                match self.parse_obj_body(src) {
                    Ok(obj) => Ok(JsonValue::Object(obj)),
                    Err(e) => Err(e),
                }
            },
            Token::Eof => Err(JsonError::UnexpectedEof),
            Token::Illegal => Err(JsonError::IllegalIdentifier),
            _ => Err(JsonError::UnexpectedToken),
        }
    }

    /// Parses a list body, the position standing just past `[`.
    #[verifier::loop_isolation(false)]
    fn parse_list_body(&mut self, src: &[u8]) -> (r: Result<Vec<Id<JsonValue>>, JsonError>)
        requires
            old(self).pos <= src@.len(),
        ensures
            final(self).mem.cap() == old(self).mem.cap(),
            final(self).pos <= src@.len(),
            ({
                let (r0, i2, ar2) = parse_list(src@, old(self).pos as int, models(old(self).mem@),
                    old(self).mem.cap(), ElemState::Start, Seq::empty());
                match r {
                    Ok(list) => (r0 matches Ok(hs) && ids_of(list@) == hs
                        && final(self).pos as int == i2
                        && models(final(self).mem@) == ar2
                        && old(self).pos <= final(self).pos),
                    Err(e) => (r0 matches Err(e0) && e0 == e),
                }
            }),
        decreases src@.len() - old(self).pos, 1int,
    {
        let ghost p0 = old(self).pos as int;
        let ghost ar0 = models(old(self).mem@);
        let ghost cap = old(self).mem.cap();
        let mut list: Vec<Id<JsonValue>> = Vec::new();
        let mut st = ElemState::Start;
        proof {
            assert(ids_of(list@) =~= Seq::<int>::empty());
        }
        loop
            invariant
                old(self).pos <= self.pos <= src@.len(),
                self.mem.cap() == cap,
                parse_list(src@, p0, ar0, cap, ElemState::Start, Seq::empty())
                    == parse_list(src@, self.pos as int, models(self.mem@), cap, st,
                        ids_of(list@)),
            decreases src@.len() - self.pos,
        {
            proof {
                lemma_token_at_bounds(src@, self.pos as int);
            }
            let (t, j) = next_token(src, self.pos);
            let tok = match t {
                Ok(tok) => tok,
                Err(e) => {
                    return Err(e);
                },
            };
            match tok {
                Token::RBracket => {
                    match st {
                        ElemState::AfterComma => {
                            return Err(JsonError::UnexpectedToken);
                        },
                        _ => {
                            self.pos = j;
                            return Ok(list);
                        },
                    }
                },
                Token::Comma => {
                    match st {
                        ElemState::AfterItem => {
                            self.pos = j;
                            st = ElemState::AfterComma;
                        },
                        _ => {
                            return Err(JsonError::UnexpectedToken);
                        },
                    }
                },
                _ => {
                    match st {
                        ElemState::AfterItem => {
                            return Err(JsonError::UnexpectedToken);
                        },
                        _ => {},
                    }
                    let v = match self.go_parse(src) {
                        Ok(v) => v,
                        Err(e) => {
                            return Err(e);
                        },
                    };
                    let ghost ar_a = models(self.mem@);
                    let ghost v_model = v@;
                    let id = match self.mem.allocate(v) {
                        Ok(id) => id,
                        Err(e) => {
                            return Err(e);
                        },
                    };
                    proof {
                        assert(models(self.mem@) =~= ar_a.push(v_model));
                        assert(ids_of(list@.push(id)) =~= ids_of(list@).push(id@));
                    }
                    list.push(id);
                    st = ElemState::AfterItem;
                },
            }
        }
    }

    /// Parses an object body, the position standing just past `{`.
    #[verifier::loop_isolation(false)]
    fn parse_obj_body(&mut self, src: &[u8]) -> (r: Result<Vec<(Vec<u8>, Id<JsonValue>)>,
        JsonError>)
        requires
            old(self).pos <= src@.len(),
        ensures
            final(self).mem.cap() == old(self).mem.cap(),
            final(self).pos <= src@.len(),
            ({
                let (r0, i2, ar2) = parse_obj(src@, old(self).pos as int, models(old(self).mem@),
                    old(self).mem.cap(), ElemState::Start, Seq::empty());
                match r {
                    Ok(obj) => (r0 matches Ok(qs) && pairs_of(obj@) == qs
                        && final(self).pos as int == i2
                        && models(final(self).mem@) == ar2
                        && old(self).pos <= final(self).pos),
                    Err(e) => (r0 matches Err(e0) && e0 == e),
                }
            }),
        decreases src@.len() - old(self).pos, 1int,
    {
        let ghost p0 = old(self).pos as int;
        let ghost ar0 = models(old(self).mem@);
        let ghost cap = old(self).mem.cap();
        let mut obj: Vec<(Vec<u8>, Id<JsonValue>)> = Vec::new();
        let mut st = ElemState::Start;
        proof {
            assert(pairs_of(obj@) =~= Seq::<(Seq<u8>, int)>::empty());
        }
        loop
            invariant
                old(self).pos <= self.pos <= src@.len(),
                self.mem.cap() == cap,
                parse_obj(src@, p0, ar0, cap, ElemState::Start, Seq::empty())
                    == parse_obj(src@, self.pos as int, models(self.mem@), cap, st,
                        pairs_of(obj@)),
            decreases src@.len() - self.pos,
        {
            proof {
                lemma_token_at_bounds(src@, self.pos as int);
            }
            let (t, j) = next_token(src, self.pos);
            let tok = match t {
                Ok(tok) => tok,
                Err(e) => {
                    return Err(e);
                },
            };
            match tok {
                Token::RBrace => {
                    match st {
                        ElemState::AfterComma => {
                            return Err(JsonError::UnexpectedToken);
                        },
                        _ => {
                            self.pos = j;
                            return Ok(obj);
                        },
                    }
                },
                Token::Comma => {
                    match st {
                        ElemState::AfterItem => {
                            self.pos = j;
                            st = ElemState::AfterComma;
                        },
                        _ => {
                            return Err(JsonError::UnexpectedToken);
                        },
                    }
                },
                Token::Str(key) => {
                    match st {
                        ElemState::AfterItem => {
                            return Err(JsonError::UnexpectedToken);
                        },
                        _ => {},
                    }
                    self.pos = j;
                    proof {
                        lemma_token_at_bounds(src@, self.pos as int);
                    }
                    let (t2, j2) = next_token(src, self.pos);
                    let tok2 = match t2 {
                        Ok(x) => x,
                        Err(e) => {
                            return Err(e);
                        },
                    };
                    match tok2 {
                        Token::Colon => {
                            self.pos = j2;
                        },
                        _ => {
                            return Err(JsonError::ExpectedColon);
                        },
                    }
                    let v = match self.go_parse(src) {
                        Ok(v) => v,
                        Err(e) => {
                            return Err(e);
                        },
                    };
                    let ghost ar_a = models(self.mem@);
                    let ghost v_model = v@;
                    let id = match self.mem.allocate(v) {
                        Ok(id) => id,
                        Err(e) => {
                            return Err(e);
                        },
                    };
                    proof {
                        assert(models(self.mem@) =~= ar_a.push(v_model));
                    }
                    insert_pair(&mut obj, key, id);
                    st = ElemState::AfterItem;
                },
                _ => {
                    match st {
                        ElemState::AfterItem => {
                            return Err(JsonError::UnexpectedToken);
                        },
                        _ => {
                            return Err(JsonError::ExpectedKeyString);
                        },
                    }
                },
            }
        }
    }

    /// Parses `src` with a fresh arena of capacity `mem`, returning the
    /// root value (which the arena does not hold) together with the arena
    /// owning every other value, or the first error met.
    pub fn parse(src: &[u8], mem: usize) -> (r: Result<(JsonValue, Allocator<JsonValue>),
        JsonError>)
        requires
            mem >= 1,
        ensures
            ({
                let r0 = parse_text(src@, mem as nat);
                match r {
                    Ok(p) => (r0 matches Ok(q) && p.0@ == q.0 && models(p.1@) == q.1
                        && p.1.cap() == mem as nat
                        && crate::value::arena_wf(models(p.1@))
                        && crate::value::val_wf(p.0@, models(p.1@).len() as int)),
                    Err(e) => (r0 matches Err(e0) && e0 == e),
                }
            }),
    {
        let mut par = Par { pos: 0, mem: Allocator::make(mem) };
        proof {
            assert(models(par.mem@) =~= Seq::<ValueModel>::empty());
            crate::laws::lemma_val_wf(src@, 0, Seq::<ValueModel>::empty(), mem as nat);
        }
        match par.go_parse(src) {
            Ok(v) => Ok((v, par.mem)),
            Err(e) => Err(e),
        }
    }
}

} // verus!
