//! Persisted configuration: one record per keyboard, mapping a hexadecimal
//! vendor/product pair to a preferred layout index.
//!
//! Reading and writing the configuration file is an outside concern; the
//! library takes the records as plain values and turns them into bindings
//! keyed by `KeyboardIdentity`. A record whose vendor or product field is not
//! a well-formed hexadecimal identifier yields no binding and is skipped.

use vstd::prelude::*;

use crate::KeyboardIdentity;
use crate::text::parse_hex_u16;
use crate::text::parse_hex_u16_spec;

verus! {

/// One persisted record: the display name is informational, the two
/// hexadecimal strings carry the identity, and `layout_index` is meaningful
/// only relative to the layout service's current ordered list (it is not
/// validated against that list at load time).
pub struct KeyboardConfig {
    pub name: String,
    pub vendor_id: String,
    pub product_id: String,
    pub layout_index: u32,
}

/// The whole persisted configuration.
pub struct Config {
    pub keyboards: Vec<KeyboardConfig>,
}

/// A record turned into a usable binding: identity parsed, layout kept.
pub struct LayoutBinding {
    pub identity: KeyboardIdentity,
    pub display_name: String,
    pub layout_index: u32,
}

/// The identity a record denotes, when both hexadecimal fields parse.
pub open spec fn parsed_identity(kc: KeyboardConfig) -> Option<KeyboardIdentity> {
    match (parse_hex_u16_spec(kc.vendor_id@), parse_hex_u16_spec(kc.product_id@)) {
        (Some(v), Some(p)) => Some(KeyboardIdentity { vendor_id: v, product_id: p }),
        _ => None,
    }
}

/// `b` is exactly the binding that record `kc` denotes.
pub open spec fn binding_matches(kc: KeyboardConfig, b: LayoutBinding) -> bool {
    &&& parsed_identity(kc) == Some(b.identity)
    &&& b.display_name@ == kc.name@
    &&& b.layout_index == kc.layout_index
}

/// `bs` is exactly the sequence of bindings that the records `ks` denote, in
/// order, with unparsable records skipped.
pub open spec fn bindings_correspond(ks: Seq<KeyboardConfig>, bs: Seq<LayoutBinding>) -> bool
    decreases ks.len(),
{
    if ks.len() == 0 {
        bs.len() == 0
    } else if parsed_identity(ks.last()) is Some {
        &&& bs.len() > 0
        &&& binding_matches(ks.last(), bs.last())
        &&& bindings_correspond(ks.drop_last(), bs.drop_last())
    } else {
        bindings_correspond(ks.drop_last(), bs)
    }
}

/// The binding one record denotes, if its identity parses.
pub fn binding_of(kc: &KeyboardConfig) -> (r: Option<LayoutBinding>)
    ensures
        r is Some <==> parsed_identity(*kc) is Some,
        r is Some ==> binding_matches(*kc, r->0),
{
    let vendor = parse_hex_u16(kc.vendor_id.as_str());
    let product = parse_hex_u16(kc.product_id.as_str());
    match (vendor, product) {
        (Some(v), Some(p)) => Some(
            LayoutBinding {
                identity: KeyboardIdentity { vendor_id: v, product_id: p },
                display_name: kc.name.clone(),
                layout_index: kc.layout_index,
            },
        ),
        _ => None,
    }
}

impl Config {
    /// The bindings the records denote, in record order, skipping records
    /// whose identity does not parse.
    pub fn bindings(&self) -> (r: Vec<LayoutBinding>)
        ensures
            bindings_correspond(self.keyboards@, r@),
    {
        let mut out: Vec<LayoutBinding> = Vec::new();
        let mut i: usize = 0;
        while i < self.keyboards.len()
            invariant
                i <= self.keyboards@.len(),
                bindings_correspond(self.keyboards@.subrange(0, i as int), out@),
            decreases self.keyboards@.len() - i,
        {
            let ghost ks1 = self.keyboards@.subrange(0, i as int);
            let ghost bs1 = out@;
            match binding_of(&self.keyboards[i]) {
                Some(b) => {
                    out.push(b);
                },
                None => {},
            }
            i += 1;
            proof {
                let ks2 = self.keyboards@.subrange(0, i as int);
                assert(ks2.drop_last() =~= ks1);
                assert(ks2.last() == self.keyboards@[i - 1]);
                if parsed_identity(ks2.last()) is Some {
                    assert(out@.drop_last() =~= bs1);
                }
            }
        }
        proof {
            assert(self.keyboards@.subrange(0, self.keyboards@.len() as int) =~= self.keyboards@);
        }
        out
    }
}

/// The distinct identities the records denote: the set the hotplug filter is
/// built from. It is fixed at startup and read-only afterwards.
pub fn configured_identities(bindings: &Vec<LayoutBinding>) -> (r: Vec<KeyboardIdentity>)
    ensures
        forall|i: int, j: int| 0 <= i < j < r@.len() ==> r@[i] != r@[j],
        forall|id: KeyboardIdentity|
            r@.contains(id) <==> exists|k: int|
                0 <= k < bindings@.len() && bindings@[k].identity == id,
{
    let mut out: Vec<KeyboardIdentity> = Vec::new();
    let mut i: usize = 0;
    while i < bindings.len()
        invariant
            i <= bindings@.len(),
            forall|a: int, b: int| 0 <= a < b < out@.len() ==> out@[a] != out@[b],
            forall|id: KeyboardIdentity|
                out@.contains(id) <==> exists|k: int| 0 <= k < i && bindings@[k].identity == id,
        decreases bindings@.len() - i,
    {
        let id = bindings[i].identity;
        let mut seen = false;
        let mut j: usize = 0;
        while j < out.len()
            invariant
                j <= out@.len(),
                seen <==> exists|k: int| 0 <= k < j && out@[k] == id,
            decreases out@.len() - j,
        {
            if out[j] == id {
                seen = true;
            }
            j += 1;
        }
        let ghost prev = out@;
        if !seen {
            out.push(id);
        }
        proof {
            assert forall|x: KeyboardIdentity| out@.contains(x) implies exists|k: int|
                0 <= k < i + 1 && bindings@[k].identity == x by {
                if prev.contains(x) {
                    let k = choose|k: int| 0 <= k < i && bindings@[k].identity == x;
                    assert(bindings@[k].identity == x);
                } else {
                    assert(x == id);
                    assert(bindings@[i as int].identity == x);
                }
            }
            assert forall|x: KeyboardIdentity|
                (exists|k: int| 0 <= k < i + 1 && bindings@[k].identity == x) implies out@.contains(
                x,
            ) by {
                let k = choose|k: int| 0 <= k < i + 1 && bindings@[k].identity == x;
                if k < i {
                    assert(prev.contains(x));
                    let k2 = choose|k2: int| 0 <= k2 < prev.len() && prev[k2] == x;
                    assert(out@[k2] == x);
                } else {
                    if seen {
                        let k2 = choose|k2: int| 0 <= k2 < prev.len() && prev[k2] == id;
                        assert(out@[k2] == x);
                    } else {
                        assert(out@[out@.len() - 1] == x);
                    }
                }
            }
        }
        i += 1;
    }
    out
}

/// Some binding in `bs` carries this identity.
pub open spec fn has_identity(bs: Seq<LayoutBinding>, id: KeyboardIdentity) -> bool {
    exists|i: int| 0 <= i < bs.len() && bs[i].identity == id
}

/// `b` is the last binding bearing its identity: the one that wins.
pub open spec fn binding_selected(bs: Seq<LayoutBinding>, b: LayoutBinding) -> bool {
    exists|k: int|
        0 <= k < bs.len() && bs[k] == b && (forall|k2: int|
            k < k2 < bs.len() ==> bs[k2].identity != b.identity)
}

/// The position of an already-kept binding with the given identity.
fn find_by_identity(out: &Vec<LayoutBinding>, id: KeyboardIdentity) -> (r: Option<usize>)
    ensures
        match r {
            Some(i) => i < out@.len() && out@[i as int].identity == id,
            None => forall|i: int| 0 <= i < out@.len() ==> out@[i].identity != id,
        },
{
    let mut i: usize = 0;
    while i < out.len()
        invariant
            i <= out@.len(),
            forall|k: int| 0 <= k < i ==> out@[k].identity != id,
        decreases out@.len() - i,
    {
        if out[i].identity == id {
            return Some(i);
        }
        i += 1;
    }
    None
}

/// Collapses the bindings to one per identity, last-write-wins: exactly the
/// rule the persisted configuration follows when a keyboard is re-mapped.
pub fn dedup_bindings(bindings: Vec<LayoutBinding>) -> (r: Vec<LayoutBinding>)
    ensures
        forall|i: int, j: int| 0 <= i < j < r@.len() ==> r@[i].identity != r@[j].identity,
        forall|i: int| 0 <= i < r@.len() ==> binding_selected(bindings@, r@[i]),
        forall|k: int|
            0 <= k < bindings@.len() ==> has_identity(r@, (#[trigger] bindings@[k]).identity),
{
    let ghost orig = bindings@;
    let mut rest = bindings;
    let mut out: Vec<LayoutBinding> = Vec::new();
    while rest.len() > 0
        invariant
            rest@.len() <= orig.len(),
            rest@ == orig.subrange(0, rest@.len() as int),
            forall|i: int, j: int| 0 <= i < j < out@.len() ==> out@[i].identity != out@[j].identity,
            forall|i: int| 0 <= i < out@.len() ==> binding_selected(orig, out@[i]),
            forall|k: int|
                rest@.len() <= k < orig.len() ==> has_identity(
                    out@,
                    (#[trigger] orig[k]).identity,
                ),
        decreases rest@.len(),
    {
        let ghost prev = rest@;
        let b = rest.pop().unwrap();
        proof {
            assert(rest@ == prev.subrange(0, prev.len() - 1));
            assert(prev == orig.subrange(0, prev.len() as int));
            assert(rest@ =~= orig.subrange(0, rest@.len() as int)) by {
                assert(forall|k: int|
                    0 <= k < rest@.len() ==> rest@[k] == prev[k] && prev[k] == orig[k]);
            }
            assert(b == prev[prev.len() - 1]);
            assert(b == orig[rest@.len() as int]);
        }
        let id = b.identity;
        match find_by_identity(&out, id) {
            Some(i) => {
                proof {
                    assert(out@[i as int].identity == orig[rest@.len() as int].identity);
                    assert(has_identity(out@, orig[rest@.len() as int].identity));
                }
            },
            None => {
                let ghost old_out = out@;
                proof {
                    // No later binding shares this identity: a later one
                    // would already stand in `out`.
                    let ghost p = rest@.len() as int;
                    assert forall|k2: int| p < k2 < orig.len() implies orig[k2].identity
                        != b.identity by {
                        if orig[k2].identity == b.identity {
                            assert(has_identity(old_out, orig[k2].identity));
                            let i = choose|i: int|
                                0 <= i < old_out.len() && old_out[i].identity == orig[k2].identity;
                            assert(old_out[i].identity == id);
                        }
                    }
                }
                out.push(b);
                proof {
                    let ghost p = rest@.len() as int;
                    assert forall|k: int| p <= k < orig.len() implies has_identity(
                        out@,
                        (#[trigger] orig[k]).identity,
                    ) by {
                        if k == p {
                            assert(out@[old_out.len() as int].identity == orig[k].identity);
                        } else {
                            assert(has_identity(old_out, orig[k].identity));
                            let i0 = choose|i: int|
                                0 <= i < old_out.len() && old_out[i].identity == orig[k].identity;
                            assert(out@[i0].identity == orig[k].identity);
                        }
                    }
                }
            },
        }
    }
    out
}

} // verus!
