use vstd::prelude::*;
use crate::arena::Allocator;
use crate::value::JsonValue;
use crate::value::ValueModel;
use crate::value::arena_wf;
use crate::value::models;
use crate::value::val_wf;

verus! {

/// The byte of a hexadecimal digit, lower case.
pub open spec fn hex_digit_of(d: int) -> u8 {
    if d < 10 {
        (48 + d) as u8
    } else {
        (87 + d) as u8
    }
}

/// The escaped form of one string byte: quote and backslash are escaped,
/// control bytes take the four-digit hexadecimal escape, everything else
/// stands as itself.
pub open spec fn escaped_byte(b: u8) -> Seq<u8> {
    if b == 34 {
        seq![92u8, 34u8]
    } else if b == 92 {
        seq![92u8, 92u8]
    } else if b < 32 {
        seq![92u8, 117u8, 48u8, 48u8, hex_digit_of(b as int / 16), hex_digit_of(b as int % 16)]
    } else {
        seq![b]
    }
}

/// The escaped body of a string literal, from byte `k` on.
pub open spec fn render_str_from(t: Seq<u8>, k: int) -> Seq<u8>
    decreases t.len() - k,
{
    if 0 <= k < t.len() {
        escaped_byte(t[k]) + render_str_from(t, k + 1)
    } else {
        Seq::empty()
    }
}

/// The canonical text of a value whose handles all lie below `b`.
pub open spec fn render_val(v: ValueModel, ar: Seq<ValueModel>, b: int) -> Seq<u8>
    decreases b, 1int, 0int,
{
    match v {
        ValueModel::Null => seq![110u8, 117u8, 108u8, 108u8],
        ValueModel::Bool(x) => if x {
            seq![116u8, 114u8, 117u8, 101u8]
        } else {
            seq![102u8, 97u8, 108u8, 115u8, 101u8]
        },
        ValueModel::Num(t) => t,
        ValueModel::Str(t) => seq![34u8] + render_str_from(t, 0) + seq![34u8],
        ValueModel::List(hs) => seq![91u8] + render_items(hs, 0, ar, b) + seq![93u8],
        ValueModel::Object(ps) => seq![123u8] + render_pairs(ps, 0, ar, b) + seq![125u8],
    }
}

/// The canonical text of a list body, from element `k` on, elements
/// separated by commas.
pub open spec fn render_items(hs: Seq<int>, k: int, ar: Seq<ValueModel>, b: int) -> Seq<u8>
    decreases b, 0int, hs.len() - k,
{
    if 0 <= k < hs.len() {
        let h = hs[k];
        let elem = if 0 <= h < b && h < ar.len() {
            render_val(ar[h], ar, h)
        } else {
            Seq::empty()
        };
        if k + 1 < hs.len() {
            elem + seq![44u8] + render_items(hs, k + 1, ar, b)
        } else {
            elem
        }
    } else {
        Seq::empty()
    }
}

/// The canonical text of an object body, from entry `k` on: each entry a
/// quoted key, a colon and the value, entries separated by commas.
pub open spec fn render_pairs(ps: Seq<(Seq<u8>, int)>, k: int, ar: Seq<ValueModel>, b: int)
    -> Seq<u8>
    decreases b, 0int, ps.len() - k,
{
    if 0 <= k < ps.len() {
        let h = ps[k].1;
        let entry = seq![34u8] + render_str_from(ps[k].0, 0) + seq![34u8, 58u8] + (if 0 <= h < b
            && h < ar.len() {
            render_val(ar[h], ar, h)
        } else {
            Seq::empty()
        });
        if k + 1 < ps.len() {
            entry + seq![44u8] + render_pairs(ps, k + 1, ar, b)
        } else {
            entry
        }
    } else {
        Seq::empty()
    }
}

/// Appends the escaped body of `t` to `out`.
#[verifier::loop_isolation(false)]
fn push_str_body(t: &Vec<u8>, out: &mut Vec<u8>)
    ensures
        final(out)@ == old(out)@ + render_str_from(t@, 0),
{
    let mut k: usize = 0;
    while k < t.len()
        invariant
            k <= t@.len(),
            old(out)@ + render_str_from(t@, 0) == out@ + render_str_from(t@, k as int),
        decreases t@.len() - k,
    {
        let b = t[k];
        let ghost out_before = out@;
        if b == 34 {
            out.push(92);
            out.push(34);
        } else if b == 92 {
            out.push(92);
            out.push(92);
        } else if b < 32 {
            out.push(92);
            out.push(117);
            out.push(48);
            out.push(48);
            let d1 = b / 16;
            let d2 = b % 16;
            out.push(if d1 < 10 { 48 + d1 } else { 87 + d1 });
            out.push(if d2 < 10 { 48 + d2 } else { 87 + d2 });
        } else {
            out.push(b);
        }
        proof {
            assert(out@ =~= out_before + escaped_byte(t@[k as int]));
            assert(out_before + escaped_byte(t@[k as int]) + render_str_from(t@, k + 1)
                =~= out_before + (escaped_byte(t@[k as int]) + render_str_from(t@, k + 1)));
        }
        k = k + 1;
    }
    proof {
        assert(out@ + render_str_from(t@, t@.len() as int) =~= out@);
    }
}

/// Appends the canonical text of `v` to `out`; every handle in `v` lies
/// below `bound`, and the arena is well formed, so each child renders
/// against the slots allocated before it.
#[verifier::loop_isolation(false)]
#[verifier::rlimit(100)]
fn render_into(v: &JsonValue, mem: &Allocator<JsonValue>, Ghost(bound): Ghost<int>,
    out: &mut Vec<u8>)
    requires
        arena_wf(models(mem@)),
        val_wf(v@, bound),
        0 <= bound <= models(mem@).len(),
    ensures
        final(out)@ == old(out)@ + render_val(v@, models(mem@), bound),
    decreases bound, 1int, 0int,
{
    let ghost ar = models(mem@);
    let ghost out0 = out@;
    match v {
        JsonValue::Null => {
            out.push(110);
            out.push(117);
            out.push(108);
            out.push(108);
            proof {
                assert(out@ =~= out0 + render_val(v@, ar, bound));
            }
        },
        JsonValue::Bool(x) => {
            if *x {
                out.push(116);
                out.push(114);
                out.push(117);
                out.push(101);
            } else {
                out.push(102);
                out.push(97);
                out.push(108);
                out.push(115);
                out.push(101);
            }
            proof {
                assert(out@ =~= out0 + render_val(v@, ar, bound));
            }
        },
        JsonValue::Number(t) => {
            let mut k: usize = 0;
            while k < t.len()
                invariant
                    k <= t@.len(),
                    out@ == out0 + t@.subrange(0, k as int),
                decreases t@.len() - k,
            {
                out.push(t[k]);
                k = k + 1;
                proof {
                    assert(out@ =~= out0 + t@.subrange(0, k as int));
                }
            }
            proof {
                assert(t@.subrange(0, t@.len() as int) =~= t@);
            }
        },
        JsonValue::String(t) => {
            out.push(34);
            push_str_body(t, out);
            out.push(34);
            proof {
                assert(out@ =~= out0 + render_val(v@, ar, bound));
            }
        },
        JsonValue::List(hs) => {
            let ghost ids = crate::value::ids_of(hs@);
            out.push(91);
            let mut k: usize = 0;
            while k < hs.len()
                invariant
                    k <= hs@.len(),
                    out0 + seq![91u8] + render_items(ids, 0, ar, bound)
                        == out@ + render_items(ids, k as int, ar, bound),
                decreases hs@.len() - k,
            {
                let id = hs[k];
                proof {
                    assert(v@ is List && v@->List_0 == ids);
                    assert(ids.len() == hs@.len());
                    assert(ids[k as int] == id@);
                    assert(0 <= v@->List_0[k as int] < bound);
                    assert(0 <= id@ < bound);
                    assert(models(mem@)[id@] == mem@[id@]@);
                }
                let child = mem.fetch(id);
                let ghost before = out@;
                render_into(child, mem, Ghost(id@), out);
                if k + 1 < hs.len() {
                    out.push(44);
                    proof {
                        assert(before + render_items(ids, k as int, ar, bound)
                            =~= out@ + render_items(ids, k + 1, ar, bound));
                    }
                } else {
                    proof {
                        assert(before + render_items(ids, k as int, ar, bound)
                            =~= out@ + render_items(ids, k + 1, ar, bound));
                    }
                }
                k = k + 1;
            }
            out.push(93);
            proof {
                assert(render_items(ids, hs@.len() as int, ar, bound) =~= Seq::<u8>::empty());
                assert(out@ =~= out0 + render_val(v@, ar, bound));
            }
        },
        JsonValue::Object(ps) => {
            let ghost prs = crate::value::pairs_of(ps@);
            out.push(123);
            let mut k: usize = 0;
            while k < ps.len()
                invariant
                    k <= ps@.len(),
                    out0 + seq![123u8] + render_pairs(prs, 0, ar, bound)
                        == out@ + render_pairs(prs, k as int, ar, bound),
                decreases ps@.len() - k,
            {
                let ghost it0 = out@;
                proof {
                    assert(v@ is Object && v@->Object_0 == prs);
                    assert(prs.len() == ps@.len());
                    assert(prs[k as int] == (ps@[k as int].0@, ps@[k as int].1@));
                    assert(0 <= v@->Object_0[k as int].1 < bound);
                }
                out.push(34);
                push_str_body(&ps[k].0, out);
                out.push(34);
                out.push(58);
                let id = ps[k].1;
                proof {
                    assert(prs[k as int].1 == id@);
                    assert(0 <= id@ < bound);
                    assert(models(mem@)[id@] == mem@[id@]@);
                }
                let child = mem.fetch(id);
                render_into(child, mem, Ghost(id@), out);
                if k + 1 < ps.len() {
                    out.push(44);
                    proof {
                        assert(it0 + render_pairs(prs, k as int, ar, bound)
                            =~= out@ + render_pairs(prs, k + 1, ar, bound));
                    }
                } else {
                    proof {
                        assert(it0 + render_pairs(prs, k as int, ar, bound)
                            =~= out@ + render_pairs(prs, k + 1, ar, bound));
                    }
                }
                k = k + 1;
            }
            out.push(125);
            proof {
                assert(render_pairs(prs, ps@.len() as int, ar, bound) =~= Seq::<u8>::empty());
                assert(out@ =~= out0 + render_val(v@, ar, bound));
            }
        },
    }
}

/// Renders a parsed tree back to canonical text: no whitespace, strings
/// with quote, backslash and control bytes escaped, numbers as their
/// lexemes, object entries in insertion order.
pub fn render(v: &JsonValue, mem: &Allocator<JsonValue>) -> (r: Vec<u8>)
    requires
        arena_wf(models(mem@)),
        val_wf(v@, models(mem@).len() as int),
    ensures
        r@ == render_val(v@, models(mem@), models(mem@).len() as int),
{
    let mut out: Vec<u8> = Vec::new();
    render_into(v, mem, Ghost(models(mem@).len() as int), &mut out);
    proof {
        assert(Seq::<u8>::empty() + render_val(v@, models(mem@), models(mem@).len() as int)
            =~= render_val(v@, models(mem@), models(mem@).len() as int));
    }
    out
}

} // verus!

