//! The attribute model: the recognized annotations, and the accumulator that
//! folds them, contract-level attributes seeding block-level defaults and a
//! later attribute overriding an earlier one with the same name.
use vstd::prelude::*;
use vstd::string::StrSliceExecFns;

use crate::ast::RAttribute;
use crate::ast::RAttributeArg;
use crate::ast::RHexOrStringLitteral;
use crate::raw::bytes_content;
use crate::raw::str_eq;

verus! {

/// A recognized annotation.
pub enum Attribute {
    /// `last`: marks the block laid out at the end of its contract.
    /// Valid on blocks only, and on at most one block per contract.
    Last,
    /// `define(name = 0x...)`: a named option with a byte value.
    /// Valid on contracts, where it seeds every block's defaults, and on
    /// blocks; a later occurrence of the same name wins.
    Define { name: String, value: bytes::Bytes },
}

/// The ghost shape of a recognized annotation.
pub enum AttrModel {
    Last,
    Define(Seq<char>, Seq<u8>),
}

/// How an attribute node reads: a recognized annotation or nothing.
pub open spec fn attr_spec(r: RAttribute) -> Option<AttrModel> {
    if r.name.inner.0@ == "last"@ && r.arg is None {
        Some(AttrModel::Last)
    } else if r.name.inner.0@ == "define"@ && (r.arg matches Some(a)
        && a.inner matches RAttributeArg::Equality(eq)
        && eq.value.inner matches RHexOrStringLitteral::Hex(h)) {
        let a = r.arg->Some_0;
        let eq = a.inner->Equality_0;
        let h = eq.value.inner->Hex_0;
        Some(AttrModel::Define(eq.name.inner.0@, bytes_content(h.0)))
    } else {
        None
    }
}

/// The ghost view of an `Attribute` value.
pub open spec fn attr_view(a: Attribute) -> AttrModel {
    match a {
        Attribute::Last => AttrModel::Last,
        Attribute::Define { name, value } => AttrModel::Define(name@, bytes_content(value)),
    }
}

impl Attribute {
    /// Reads an attribute node; `None` is an unrecognized annotation, which
    /// the caller rejects as invalid for its level.
    pub fn from_r_attribute(r: &RAttribute) -> (res: Option<Attribute>)
        ensures
            match res {
                Some(a) => attr_spec(*r) == Some(attr_view(a)),
                None => attr_spec(*r) is None,
            },
    {
        proof {
            reveal_strlit("last");
            reveal_strlit("define");
            assert("last"@.len() != "define"@.len());
        }
        if str_eq(r.name.inner.as_str(), "last") {
            match &r.arg {
                None => Some(Attribute::Last),
                Some(_) => None,
            }
        } else if str_eq(r.name.inner.as_str(), "define") {
            match &r.arg {
                Some(a) => match &a.inner {
                    RAttributeArg::Equality(eq) => match &eq.value.inner {
                        RHexOrStringLitteral::Hex(h) => Some(
                            Attribute::Define {
                                name: eq.name.inner.as_str().to_owned(),
                                value: h.0.clone(),
                            },
                        ),
                        _ => None,
                    },
                    _ => None,
                },
                None => None,
            }
        } else {
            None
        }
    }

    /// Whether this annotation may stand on a contract.
    pub fn is_contract_attribute(&self) -> (r: bool)
        ensures
            r == !(self is Last),
    {
        match self {
            Attribute::Last => false,
            Attribute::Define { .. } => true,
        }
    }

    /// Whether this annotation may stand on a block.
    pub fn is_block_attribute(&self) -> (r: bool)
        ensures
            r,
    {
        match self {
            Attribute::Last => true,
            Attribute::Define { .. } => true,
        }
    }

    /// Whether this is the `last` marker.
    pub fn is_last(&self) -> (r: bool)
        ensures
            r == (self is Last),
    {
        match self {
            Attribute::Last => true,
            Attribute::Define { .. } => false,
        }
    }
}

/// The ghost reading of one applied `define`: its name and its byte value.
pub open spec fn pair_view(p: (String, bytes::Bytes)) -> (Seq<char>, Seq<u8>) {
    (p.0@, bytes_content(p.1))
}

/// The ghost reading of a list of applied `define`s, in application order.
pub open spec fn defines_view(s: Seq<(String, bytes::Bytes)>) -> Seq<(Seq<char>, Seq<u8>)> {
    s.map_values(|p: (String, bytes::Bytes)| pair_view(p))
}

/// The named options a list of `define` readings accumulates to, later wins.
pub open spec fn defines_map_v(s: Seq<(Seq<char>, Seq<u8>)>) -> Map<Seq<char>, Seq<u8>>
    decreases s.len(),
{
    if s.len() == 0 {
        Map::empty()
    } else {
        defines_map_v(s.drop_last()).insert(s.last().0, s.last().1)
    }
}

/// The named options a sequence of `define`s accumulates to, later wins.
pub open spec fn defines_map(s: Seq<(String, bytes::Bytes)>) -> Map<Seq<char>, Seq<u8>> {
    defines_map_v(defines_view(s))
}

/// The accumulated attributes of a contract or a block.
pub struct Attributes {
    /// Whether the `last` marker was applied.
    pub last: bool,
    /// Every applied `define`, in application order; the map view keeps the
    /// latest value of each name.
    pub defines: Vec<(String, bytes::Bytes)>,
}

impl Attributes {
    pub fn new() -> (r: Attributes)
        ensures
            !r.last,
            defines_map(r.defines@) =~= Map::<Seq<char>, Seq<u8>>::empty(),
    {
        Attributes { last: false, defines: Vec::new() }
    }

    /// Applies one annotation on top of what is already accumulated.
    pub fn apply(&mut self, attribute: Attribute)
        ensures
            match attr_view(attribute) {
                AttrModel::Last => final(self).last && final(self).defines == old(self).defines,
                AttrModel::Define(n, v) => final(self).last == old(self).last && defines_map(
                    final(self).defines@,
                ) == defines_map(old(self).defines@).insert(n, v),
            },
    {
        match attribute {
            Attribute::Last => {
                self.last = true;
            },
            Attribute::Define { name, value } => {
                let ghost p = pair_view((name, value));
                self.defines.push((name, value));
                proof {
                    assert(defines_view(self.defines@) =~= defines_view(old(self).defines@).push(
                        p,
                    ));
                    assert(defines_view(self.defines@).drop_last() =~= defines_view(
                        old(self).defines@,
                    ));
                }
            },
        }
    }

    /// A copy with the same accumulated meaning, used to seed each block's
    /// defaults from its contract's attributes.
    pub fn duplicate(&self) -> (r: Attributes)
        ensures
            r.last == self.last,
            defines_view(r.defines@) == defines_view(self.defines@),
            defines_map(r.defines@) == defines_map(self.defines@),
    {
        let mut defines: Vec<(String, bytes::Bytes)> = Vec::new();
        let len = self.defines.len();
        let mut i: usize = 0;
        while i < len
            invariant
                0 <= i <= len,
                len == self.defines@.len(),
                defines_view(defines@) =~= defines_view(self.defines@).take(i as int),
            decreases len - i,
        {
            let ghost pre = defines@;
            let entry = &self.defines[i];
            let name = entry.0.as_str().to_owned();
            let value = entry.1.clone();
            let ghost p = pair_view((name, value));
            defines.push((name, value));
            proof {
                assert(defines_view(defines@) =~= defines_view(pre).push(p));
                assert(p == pair_view(self.defines@[i as int]));
                assert(defines_view(defines@) =~= defines_view(self.defines@).take(i + 1));
            }
            i += 1;
        }
        proof {
            assert(defines_view(self.defines@).take(len as int) =~= defines_view(self.defines@));
        }
        Attributes { last: self.last, defines }
    }
}

} // verus!
