//! The type canonicalization database.
//!
//! A fixed set of "standard" foreign types needs special handling: each has a
//! canonical name (the spelling used internally and in generated safe-language
//! source), a C++ spelling, a by-value-safety flag and a prelude-inclusion
//! policy.  A derived index maps a "dead" (namespace-flattened) spelling back
//! to the canonical name, so that a parser artifact such as `std_string` is
//! recognised as `CxxString` the moment it enters the system.
//!
//! The registry is a small fixed table, never mutated once built, and every
//! operation on it is a pure function of its argument; lookups rebuild the
//! table on demand, which keeps the crate free of global state.

use vstd::prelude::*;
use vstd::string::{StrSliceExecFns, StringExecFns};

use crate::text::{
    chars_eq_str, dead_spelling, flatten_name, join_all, joined_with, lemma_dead_spelling_no_sep,
};

verus! {

/// A type name, stored in its canonical spelling, e.g. `u32` or `CxxString`
/// (never `uint32_t` nor `std_string`).
#[derive(Debug, PartialEq, Eq, Hash)]
pub struct TypeName(String);

impl View for TypeName {
    type V = Seq<char>;

    closed spec fn view(&self) -> Seq<char> {
        self.0@
    }
}

impl DeepView for TypeName {
    type V = Seq<char>;

    open spec fn deep_view(&self) -> Seq<char> {
        self.view()
    }
}

impl Clone for TypeName {
    fn clone(&self) -> (r: Self)
        ensures
            r@ == self@,
    {
        TypeName(self.0.clone())
    }
}

/// Whether and how a standard type is included in the prelude handed to the
/// foreign-header parsing front end.
#[derive(Clone, Copy, Debug, PartialEq, Eq)]
pub enum PreludePolicy {
    Exclude,
    IncludeNormal,
    IncludeTemplated,
}

/// The mathematical model of one standard type record.
pub struct TypeRecord {
    pub canonical: Seq<char>,
    pub foreign: Seq<char>,
    pub by_value_safe: bool,
    pub prelude_policy: PreludePolicy,
}

/// One standard type record: the canonical name, the equivalent C++ spelling,
/// whether the type is safe to pass by value, and its prelude policy.
#[derive(Debug)]
pub struct TypeDetails {
    pub cxx_name: String,
    pub cpp_name: String,
    pub by_value_safe: bool,
    pub prelude_policy: PreludePolicy,
}

impl View for TypeDetails {
    type V = TypeRecord;

    open spec fn view(&self) -> TypeRecord {
        TypeRecord {
            canonical: self.cxx_name@,
            foreign: self.cpp_name@,
            by_value_safe: self.by_value_safe,
            prelude_policy: self.prelude_policy,
        }
    }
}

impl TypeDetails {
    pub fn new(
        cxx_name: String,
        cpp_name: String,
        by_value_safe: bool,
        prelude_policy: PreludePolicy,
    ) -> (r: Self)
        ensures
            r@ == (TypeRecord {
                canonical: cxx_name@,
                foreign: cpp_name@,
                by_value_safe,
                prelude_policy,
            }),
    {
        TypeDetails { cxx_name, cpp_name, by_value_safe, prelude_policy }
    }
}

/// The fixed seed data: a templated heap-owning pointer wrapper, an owned
/// string wrapper, and the fixed-width integers at 8/16/32/64 bits.
pub open spec fn standard_records() -> Seq<TypeRecord> {
    seq![
        TypeRecord {
            canonical: "UniquePtr"@,
            foreign: "std::unique_ptr"@,
            by_value_safe: true,
            prelude_policy: PreludePolicy::IncludeTemplated,
        },
        TypeRecord {
            canonical: "CxxString"@,
            foreign: "std::string"@,
            by_value_safe: false,
            prelude_policy: PreludePolicy::IncludeNormal,
        },
        TypeRecord {
            canonical: "u8"@,
            foreign: "uint8_t"@,
            by_value_safe: true,
            prelude_policy: PreludePolicy::Exclude,
        },
        TypeRecord {
            canonical: "i8"@,
            foreign: "int8_t"@,
            by_value_safe: true,
            prelude_policy: PreludePolicy::Exclude,
        },
        TypeRecord {
            canonical: "u16"@,
            foreign: "uint16_t"@,
            by_value_safe: true,
            prelude_policy: PreludePolicy::Exclude,
        },
        TypeRecord {
            canonical: "i16"@,
            foreign: "int16_t"@,
            by_value_safe: true,
            prelude_policy: PreludePolicy::Exclude,
        },
        TypeRecord {
            canonical: "u32"@,
            foreign: "uint32_t"@,
            by_value_safe: true,
            prelude_policy: PreludePolicy::Exclude,
        },
        TypeRecord {
            canonical: "i32"@,
            foreign: "int32_t"@,
            by_value_safe: true,
            prelude_policy: PreludePolicy::Exclude,
        },
        TypeRecord {
            canonical: "u64"@,
            foreign: "uint64_t"@,
            by_value_safe: true,
            prelude_policy: PreludePolicy::Exclude,
        },
        TypeRecord {
            canonical: "i64"@,
            foreign: "int64_t"@,
            by_value_safe: true,
            prelude_policy: PreludePolicy::Exclude,
        },
    ]
}

/// The dead-name pairs derived from `records`, in order: one pair
/// `(dead spelling, canonical name)` for every record whose dead spelling
/// differs from its C++ spelling.
pub open spec fn dead_pairs_of(records: Seq<TypeRecord>) -> Seq<(Seq<char>, Seq<char>)>
    decreases records.len(),
{
    if records.len() == 0 {
        Seq::<(Seq<char>, Seq<char>)>::empty()
    } else {
        let head = records[0];
        let rest = dead_pairs_of(records.drop_first());
        if dead_spelling(head.foreign) != head.foreign {
            seq![(dead_spelling(head.foreign), head.canonical)] + rest
        } else {
            rest
        }
    }
}

pub open spec fn standard_dead_pairs() -> Seq<(Seq<char>, Seq<char>)> {
    dead_pairs_of(standard_records())
}

/// First-match lookup among dead-name pairs.
pub open spec fn dead_lookup(pairs: Seq<(Seq<char>, Seq<char>)>, s: Seq<char>) -> Option<
    Seq<char>,
>
    decreases pairs.len(),
{
    if pairs.len() == 0 {
        None
    } else if pairs[0].0 == s {
        Some(pairs[0].1)
    } else {
        dead_lookup(pairs.drop_first(), s)
    }
}

/// What a raw name normalizes to: the canonical name its dead spelling maps
/// to, or the raw name itself when it is already canonical.
pub open spec fn normalized(s: Seq<char>) -> Seq<char> {
    match dead_lookup(standard_dead_pairs(), s) {
        Some(c) => c,
        None => s,
    }
}

/// First-match lookup of a record by canonical name.
pub open spec fn record_lookup(records: Seq<TypeRecord>, s: Seq<char>) -> Option<TypeRecord>
    decreases records.len(),
{
    if records.len() == 0 {
        None
    } else if records[0].canonical == s {
        Some(records[0])
    } else {
        record_lookup(records.drop_first(), s)
    }
}

/// The C++ spelling of a canonical name: the matching record's foreign
/// spelling, or the name itself when no record is registered for it.
pub open spec fn foreign_spelling(s: Seq<char>) -> Seq<char> {
    match record_lookup(standard_records(), s) {
        Some(r) => r.foreign,
        None => s,
    }
}

/// One entry of the dead-name index.
#[derive(Debug)]
pub struct DeadName {
    pub dead: Vec<char>,
    pub canonical: String,
}

impl View for DeadName {
    type V = (Seq<char>, Seq<char>);

    open spec fn view(&self) -> (Seq<char>, Seq<char>) {
        (self.dead@, self.canonical@)
    }
}

/// The registry of standard type records plus the derived dead-name index.
#[derive(Debug)]
pub struct TypeDatabase {
    pub entries: Vec<TypeDetails>,
    pub dead_names: Vec<DeadName>,
}

impl TypeDatabase {
    pub open spec fn records(&self) -> Seq<TypeRecord> {
        self.entries@.map_values(|d: TypeDetails| d@)
    }

    pub open spec fn dead_pairs(&self) -> Seq<(Seq<char>, Seq<char>)> {
        self.dead_names@.map_values(|d: DeadName| d@)
    }

    pub open spec fn wf(&self) -> bool {
        &&& self.records() == standard_records()
        &&& self.dead_pairs() == standard_dead_pairs()
    }
}

fn int_details(cxx: &str, cpp: &str) -> (r: TypeDetails)
    ensures
        r@ == (TypeRecord {
            canonical: cxx@,
            foreign: cpp@,
            by_value_safe: true,
            prelude_policy: PreludePolicy::Exclude,
        }),
{
    TypeDetails::new(String::from_str(cxx), String::from_str(cpp), true, PreludePolicy::Exclude)
}

/// Builds the database: seeds the standard records and derives the dead-name
/// index from every record whose flattened C++ spelling differs from the
/// unflattened one.
pub fn create_type_database() -> (db: TypeDatabase)
    ensures
        db.wf(),
{
    let mut entries: Vec<TypeDetails> = Vec::new();
    entries.push(
        TypeDetails::new(
            String::from_str("UniquePtr"),
            String::from_str("std::unique_ptr"),
            true,
            PreludePolicy::IncludeTemplated,
        ),
    );
    entries.push(
        TypeDetails::new(
            String::from_str("CxxString"),
            String::from_str("std::string"),
            false,
            PreludePolicy::IncludeNormal,
        ),
    );
    entries.push(int_details("u8", "uint8_t"));
    entries.push(int_details("i8", "int8_t"));
    entries.push(int_details("u16", "uint16_t"));
    entries.push(int_details("i16", "int16_t"));
    entries.push(int_details("u32", "uint32_t"));
    entries.push(int_details("i32", "int32_t"));
    entries.push(int_details("u64", "uint64_t"));
    entries.push(int_details("i64", "int64_t"));
    proof {
        assert(entries@.map_values(|d: TypeDetails| d@) =~= standard_records());
    }
    let mut dead_names: Vec<DeadName> = Vec::new();
    let mut i: usize = 0;
    proof {
        assert(standard_records().skip(0) =~= standard_records());
        assert(dead_names@.map_values(|d: DeadName| d@) + standard_dead_pairs()
            =~= standard_dead_pairs());
    }
    while i < entries.len()
        invariant
            i <= entries@.len(),
            entries@.map_values(|d: TypeDetails| d@) == standard_records(),
            dead_names@.map_values(|d: DeadName| d@) + dead_pairs_of(
                standard_records().skip(i as int),
            ) == standard_dead_pairs(),
        decreases entries@.len() - i,
    {
        let ghost rs = standard_records();
        let ghost pre = dead_names@.map_values(|d: DeadName| d@);
        proof {
            assert(rs[i as int] == entries@.map_values(|d: TypeDetails| d@)[i as int]);
            assert(rs.skip(i as int)[0] == rs[i as int]);
            assert(rs.skip(i as int).drop_first() =~= rs.skip(i + 1));
        }
        let flat = flatten_name(entries[i].cpp_name.as_str());
        let same = chars_eq_str(&flat, entries[i].cpp_name.as_str());
        if !same {
            let nm = entries[i].cxx_name.clone();
            dead_names.push(DeadName { dead: flat, canonical: nm });
            proof {
                assert(dead_names@.map_values(|d: DeadName| d@) =~= pre.push(
                    (dead_spelling(rs[i as int].foreign), rs[i as int].canonical),
                ));
                assert(dead_names@.map_values(|d: DeadName| d@) + dead_pairs_of(
                    rs.skip(i + 1),
                ) =~= pre + (seq![(dead_spelling(rs[i as int].foreign), rs[i as int].canonical)]
                    + dead_pairs_of(rs.skip(i + 1))));
            }
        }
        i = i + 1;
    }
    proof {
        assert(standard_records().skip(standard_records().len() as int)
            =~= Seq::<TypeRecord>::empty());
        assert(dead_names@.map_values(|d: DeadName| d@) + Seq::<(Seq<char>, Seq<char>)>::empty()
            =~= dead_names@.map_values(|d: DeadName| d@));
    }
    TypeDatabase { entries, dead_names }
}

impl TypeName {
    /// Normalizes a raw name: a dead spelling maps to its canonical name, any
    /// other name is taken as already canonical.
    pub fn new(id: &str) -> (r: TypeName)
        ensures
            r@ == normalized(id@),
    {
        let db = create_type_database();
        let mut i: usize = 0;
        proof {
            assert(standard_dead_pairs().skip(0) =~= standard_dead_pairs());
        }
        while i < db.dead_names.len()
            invariant
                db.wf(),
                i <= db.dead_names@.len(),
                dead_lookup(standard_dead_pairs(), id@) == dead_lookup(
                    standard_dead_pairs().skip(i as int),
                    id@,
                ),
            decreases db.dead_names@.len() - i,
        {
            let ghost pairs = standard_dead_pairs();
            proof {
                assert(pairs[i as int] == db.dead_names@.map_values(|d: DeadName| d@)[i as int]);
                assert(pairs.skip(i as int)[0] == pairs[i as int]);
                assert(pairs.skip(i as int).drop_first() =~= pairs.skip(i + 1));
            }
            let hit = chars_eq_str(&db.dead_names[i].dead, id);
            if hit {
                return TypeName(db.dead_names[i].canonical.clone());
            }
            i = i + 1;
        }
        proof {
            assert(standard_dead_pairs().skip(db.dead_names@.len() as int) =~= Seq::<
                (Seq<char>, Seq<char>),
            >::empty());
        }
        TypeName(String::from_str(id))
    }

    /// Wraps a name as-is, with no dead-name replacement.
    pub fn new_unchecked(id: &str) -> (r: TypeName)
        ensures
            r@ == id@,
    {
        TypeName(String::from_str(id))
    }

    /// The name a parsed identifier contributes: its normalized spelling.
    pub fn from_ident(id: &str) -> (r: TypeName)
        ensures
            r@ == normalized(id@),
    {
        TypeName::new(id)
    }

    /// The name a qualified path contributes: its last segment, normalized.
    /// Generic parameters and outer qualification are not yet handled; two
    /// distinct foreign types sharing a final segment will collide.
    pub fn from_type_path(segments: &Vec<String>) -> (r: TypeName)
        requires
            segments@.len() > 0,
        ensures
            r@ == normalized(segments.deep_view().last()),
    {
        let last = &segments[segments.len() - 1];
        proof {
            assert(segments.deep_view().last() == segments@[segments@.len() - 1]@);
        }
        TypeName::new(last.as_str())
    }

    /// The C++ spelling of this name: the registered record's foreign
    /// spelling, or the name unchanged when the type is not specially
    /// handled.
    pub fn to_cpp_name(&self) -> (r: String)
        ensures
            r@ == foreign_spelling(self@),
    {
        let db = create_type_database();
        let mut i: usize = 0;
        proof {
            assert(standard_records().skip(0) =~= standard_records());
        }
        while i < db.entries.len()
            invariant
                db.wf(),
                i <= db.entries@.len(),
                record_lookup(standard_records(), self@) == record_lookup(
                    standard_records().skip(i as int),
                    self@,
                ),
            decreases db.entries@.len() - i,
        {
            let ghost rs = standard_records();
            proof {
                assert(rs[i as int] == db.entries@.map_values(|d: TypeDetails| d@)[i as int]);
                assert(rs.skip(i as int)[0] == rs[i as int]);
                assert(rs.skip(i as int).drop_first() =~= rs.skip(i + 1));
            }
            if db.entries[i].cxx_name == self.0 {
                return db.entries[i].cpp_name.clone();
            }
            i = i + 1;
        }
        proof {
            assert(standard_records().skip(db.entries@.len() as int)
                =~= Seq::<TypeRecord>::empty());
        }
        self.0.clone()
    }

    /// The name's own characters.
    pub fn as_str(&self) -> (r: &str)
        ensures
            r@ == self@,
    {
        self.0.as_str()
    }

    /// Whether the two names spell the same characters.
    pub fn same_as(&self, other: &TypeName) -> (b: bool)
        ensures
            b == (self@ == other@),
    {
        self.0 == other.0
    }

    /// Whether `func_name` starts with this type name; if so, the suffix
    /// after that prefix and one further (separator) character.
    pub fn prefixes<'a>(&self, func_name: &'a str) -> (r: Option<&'a str>)
        requires
            self@ != func_name@,
        ensures
            self@.is_prefix_of(func_name@) ==> (r matches Some(s) && s@ == func_name@.skip(
                self@.len() + 1 as int,
            )),
            !self@.is_prefix_of(func_name@) ==> r is None,
    {
        let m = self.0.as_str().unicode_len();
        let n = func_name.unicode_len();
        if n < m {
            return None;
        }
        let mut i: usize = 0;
        while i < m
            invariant
                i <= m,
                m == self@.len(),
                n == func_name@.len(),
                m <= n,
                forall|j: int| 0 <= j < i ==> self@[j] == func_name@[j],
            decreases m - i,
        {
            if self.0.as_str().get_char(i) != func_name.get_char(i) {
                proof {
                    if self@.is_prefix_of(func_name@) {
                        assert(self@[i as int] == func_name@.subrange(0, m as int)[i as int]);
                    }
                }
                return None;
            }
            i = i + 1;
        }
        proof {
            assert(self@ =~= func_name@.subrange(0, m as int));
            if m == n {
                assert(self@ =~= func_name@);
            }
        }
        Some(func_name.substring_char(m + 1, n))
    }
}

/// Evaluates the dead-name index of the seeded records: only the two
/// namespace-qualified spellings differ from their flattened forms.
proof fn lemma_standard_dead_pairs()
    ensures
        standard_dead_pairs() == seq![
            ("std_unique_ptr"@, "UniquePtr"@),
            ("std_string"@, "CxxString"@),
        ],
        dead_spelling(standard_records()[0].foreign) == "std_unique_ptr"@,
        dead_spelling(standard_records()[1].foreign) == "std_string"@,
        dead_spelling(standard_records()[0].foreign) != standard_records()[0].foreign,
        dead_spelling(standard_records()[1].foreign) != standard_records()[1].foreign,
        forall|k: int|
            2 <= k < standard_records().len() ==> dead_spelling(
                #[trigger] standard_records()[k].foreign,
            ) == standard_records()[k].foreign,
{
    reveal_strlit("std::unique_ptr");
    reveal_strlit("std_unique_ptr");
    reveal_strlit("std::string");
    reveal_strlit("std_string");
    reveal_strlit("uint8_t");
    reveal_strlit("int8_t");
    reveal_strlit("uint16_t");
    reveal_strlit("int16_t");
    reveal_strlit("uint32_t");
    reveal_strlit("int32_t");
    reveal_strlit("uint64_t");
    reveal_strlit("int64_t");
    reveal_with_fuel(dead_spelling, 17);
    let rs = standard_records();
    assert(dead_spelling("std::unique_ptr"@) =~= "std_unique_ptr"@);
    assert(dead_spelling("std::string"@) =~= "std_string"@);
    assert(("std_unique_ptr"@).len() == 14 && ("std::unique_ptr"@).len() == 15);
    assert(("std_string"@).len() == 10 && ("std::string"@).len() == 11);
    assert forall|k: int| 2 <= k < rs.len() implies dead_spelling(#[trigger] rs[k].foreign)
        == rs[k].foreign by {
        assert(forall|i: int| 0 <= i < ("uint8_t"@).len() ==> #[trigger] "uint8_t"@[i] != ':');
        assert(forall|i: int| 0 <= i < ("int8_t"@).len() ==> #[trigger] "int8_t"@[i] != ':');
        assert(forall|i: int| 0 <= i < ("uint16_t"@).len() ==> #[trigger] "uint16_t"@[i] != ':');
        assert(forall|i: int| 0 <= i < ("int16_t"@).len() ==> #[trigger] "int16_t"@[i] != ':');
        assert(forall|i: int| 0 <= i < ("uint32_t"@).len() ==> #[trigger] "uint32_t"@[i] != ':');
        assert(forall|i: int| 0 <= i < ("int32_t"@).len() ==> #[trigger] "int32_t"@[i] != ':');
        assert(forall|i: int| 0 <= i < ("uint64_t"@).len() ==> #[trigger] "uint64_t"@[i] != ':');
        assert(forall|i: int| 0 <= i < ("int64_t"@).len() ==> #[trigger] "int64_t"@[i] != ':');
        lemma_dead_spelling_no_sep("uint8_t"@);
        lemma_dead_spelling_no_sep("int8_t"@);
        lemma_dead_spelling_no_sep("uint16_t"@);
        lemma_dead_spelling_no_sep("int16_t"@);
        lemma_dead_spelling_no_sep("uint32_t"@);
        lemma_dead_spelling_no_sep("int32_t"@);
        lemma_dead_spelling_no_sep("uint64_t"@);
        lemma_dead_spelling_no_sep("int64_t"@);
    }
    let r1 = rs.drop_first();
    let r2 = r1.drop_first();
    let r3 = r2.drop_first();
    let r4 = r3.drop_first();
    let r5 = r4.drop_first();
    let r6 = r5.drop_first();
    let r7 = r6.drop_first();
    let r8 = r7.drop_first();
    let r9 = r8.drop_first();
    let r10 = r9.drop_first();
    assert(r10.len() == 0);
    assert(dead_pairs_of(r10) =~= Seq::<(Seq<char>, Seq<char>)>::empty());
    assert(r9[0] == rs[9] && dead_pairs_of(r9) == dead_pairs_of(r10));
    assert(r8[0] == rs[8] && dead_pairs_of(r8) == dead_pairs_of(r9));
    assert(r7[0] == rs[7] && dead_pairs_of(r7) == dead_pairs_of(r8));
    assert(r6[0] == rs[6] && dead_pairs_of(r6) == dead_pairs_of(r7));
    assert(r5[0] == rs[5] && dead_pairs_of(r5) == dead_pairs_of(r6));
    assert(r4[0] == rs[4] && dead_pairs_of(r4) == dead_pairs_of(r5));
    assert(r3[0] == rs[3] && dead_pairs_of(r3) == dead_pairs_of(r4));
    assert(r2[0] == rs[2] && dead_pairs_of(r2) == dead_pairs_of(r3));
    assert(r1[0] == rs[1] && dead_pairs_of(r1) == seq![("std_string"@, "CxxString"@)]
        + dead_pairs_of(r2));
    assert(dead_pairs_of(rs) == seq![("std_unique_ptr"@, "UniquePtr"@)] + dead_pairs_of(r1));
    assert(standard_dead_pairs() =~= seq![
        ("std_unique_ptr"@, "UniquePtr"@),
        ("std_string"@, "CxxString"@),
    ]);
}

/// First-match lookup lands on index `i` when no earlier record shares its
/// canonical name.
proof fn lemma_record_lookup_hits(rs: Seq<TypeRecord>, i: int)
    requires
        0 <= i < rs.len(),
        forall|j: int| 0 <= j < i ==> (#[trigger] rs[j].canonical) != rs[i].canonical,
    ensures
        record_lookup(rs, rs[i].canonical) == Some(rs[i]),
    decreases i,
{
    if i == 0 {
    } else {
        let rest = rs.drop_first();
        assert(forall|j: int| 0 <= j < i - 1 ==> (#[trigger] rest[j].canonical) == rs[
            j + 1
        ].canonical);
        lemma_record_lookup_hits(rest, i - 1);
        assert(rs[0].canonical != rs[i].canonical);
    }
}

/// The seeded canonical names are pairwise distinct.
proof fn lemma_canonicals_distinct()
    ensures
        forall|a: int, b: int|
            0 <= a < b < standard_records().len() ==> (#[trigger] standard_records()[a].canonical)
                != (#[trigger] standard_records()[b].canonical),
{
    reveal_strlit("UniquePtr");
    reveal_strlit("CxxString");
    reveal_strlit("u8");
    reveal_strlit("i8");
    reveal_strlit("u16");
    reveal_strlit("i16");
    reveal_strlit("u32");
    reveal_strlit("i32");
    reveal_strlit("u64");
    reveal_strlit("i64");
    assert(("UniquePtr"@).len() == 9 && ("UniquePtr"@)[0] == 'U');
    assert(("CxxString"@).len() == 9 && ("CxxString"@)[0] == 'C');
    assert(("u8"@).len() == 2 && ("u8"@)[0] == 'u');
    assert(("i8"@).len() == 2 && ("i8"@)[0] == 'i');
    assert(("u16"@).len() == 3 && ("u16"@)[0] == 'u' && ("u16"@)[1] == '1');
    assert(("i16"@).len() == 3 && ("i16"@)[0] == 'i' && ("i16"@)[1] == '1');
    assert(("u32"@).len() == 3 && ("u32"@)[0] == 'u' && ("u32"@)[1] == '3');
    assert(("i32"@).len() == 3 && ("i32"@)[0] == 'i' && ("i32"@)[1] == '3');
    assert(("u64"@).len() == 3 && ("u64"@)[0] == 'u' && ("u64"@)[1] == '6');
    assert(("i64"@).len() == 3 && ("i64"@)[0] == 'i' && ("i64"@)[1] == '6');
}

/// Canonical names are fixed points of normalization: normalizing twice is
/// the same as normalizing once.
pub proof fn lemma_normalize_idempotent(s: Seq<char>)
    ensures
        normalized(normalized(s)) == normalized(s),
{
    lemma_standard_dead_pairs();
    reveal_strlit("std_unique_ptr");
    reveal_strlit("std_string");
    reveal_strlit("UniquePtr");
    reveal_strlit("CxxString");
    reveal_with_fuel(dead_lookup, 4);
    let pairs = standard_dead_pairs();
    let p1 = pairs.drop_first();
    let p2 = p1.drop_first();
    assert(p1 =~= seq![("std_string"@, "CxxString"@)]);
    assert(p2.len() == 0);
    if dead_lookup(pairs, s) is Some {
        let c = normalized(s);
        assert(c == "UniquePtr"@ || c == "CxxString"@);
        assert(("UniquePtr"@).len() == 9 && ("CxxString"@).len() == 9);
        assert(("std_unique_ptr"@).len() == 14 && ("std_string"@).len() == 10);
        assert(dead_lookup(pairs, c) is None);
    }
}

/// Round trip on the seeded records: the C++ spelling of each canonical name
/// is the record's foreign spelling, and — for the records whose flattened
/// spelling differs from the unflattened one — normalizing the dead spelling gives
/// the canonical name back.  (For the fixed-width integer records the dead
/// spelling coincides with the foreign spelling, so the dead-name index
/// deliberately omits them and normalization leaves their foreign spelling
/// unchanged.)
pub proof fn lemma_known_type_round_trip(i: int)
    requires
        0 <= i < standard_records().len(),
    ensures
        foreign_spelling(standard_records()[i].canonical) == standard_records()[i].foreign,
        dead_spelling(standard_records()[i].foreign) != standard_records()[i].foreign
            ==> normalized(dead_spelling(standard_records()[i].foreign)) == standard_records()[
            i
        ].canonical,
{
    let rs = standard_records();
    lemma_canonicals_distinct();
    lemma_record_lookup_hits(rs, i);
    lemma_standard_dead_pairs();
    reveal_strlit("std_unique_ptr");
    reveal_strlit("std_string");
    reveal_with_fuel(dead_lookup, 4);
    let pairs = standard_dead_pairs();
    let p1 = pairs.drop_first();
    assert(p1 =~= seq![("std_string"@, "CxxString"@)]);
    if dead_spelling(rs[i].foreign) != rs[i].foreign {
        assert(i == 0 || i == 1);
        if i == 0 {
            assert(dead_lookup(pairs, "std_unique_ptr"@) == Some("UniquePtr"@));
        } else {
            assert(("std_unique_ptr"@).len() == 14 && ("std_string"@).len() == 10);
            assert(dead_lookup(pairs, "std_string"@) == Some("CxxString"@));
        }
    }
}

/// The fixed text of one prelude forward-declaration snippet.
pub open spec fn prelude_entry_text(
    foreign: Seq<char>,
    templating: Seq<char>,
    canonical: Seq<char>,
    payload: Seq<char>,
) -> Seq<char> {
    "/**\n* <div rustbindgen=\"true\" replaces=\""@ + foreign + "\">\n*/\n"@ + templating
        + "class "@ + canonical + " {\n    "@ + payload + ";\n};\n\n"@
}

/// The prelude snippet a record contributes, if any: templated records render
/// with a single type parameter and a pointer-typed placeholder member,
/// plain included records with a pointer-typed placeholder member alone.
pub open spec fn prelude_entry_of(r: TypeRecord) -> Option<Seq<char>> {
    match r.prelude_policy {
        PreludePolicy::Exclude => None,
        PreludePolicy::IncludeNormal => Some(
            prelude_entry_text(r.foreign, ""@, r.canonical, "char* ptr"@),
        ),
        PreludePolicy::IncludeTemplated => Some(
            prelude_entry_text(r.foreign, "template<typename T> "@, r.canonical, "T* ptr"@),
        ),
    }
}

impl TypeDetails {
    /// Renders this record's prelude snippet, or nothing when the record is
    /// excluded from the prelude.
    pub fn get_prelude_entry(&self) -> (r: Option<String>)
        ensures
            (match prelude_entry_of(self@) {
                Some(v) => r matches Some(s) && s@ == v,
                None => r is None,
            }),
    {
        match self.prelude_policy {
            PreludePolicy::Exclude => None,
            _ => {
                let mut out = String::from_str("/**\n* <div rustbindgen=\"true\" replaces=\"");
                out.append(self.cpp_name.as_str());
                out.append("\">\n*/\n");
                let templated = match self.prelude_policy {
                    PreludePolicy::IncludeTemplated => true,
                    _ => false,
                };
                if templated {
                    out.append("template<typename T> ");
                }
                out.append("class ");
                out.append(self.cxx_name.as_str());
                out.append(" {\n    ");
                if templated {
                    out.append("T* ptr");
                } else {
                    out.append("char* ptr");
                }
                out.append(";\n};\n\n");
                proof {
                    if templated {
                        assert(out@ =~= prelude_entry_text(
                            self.cpp_name@,
                            "template<typename T> "@,
                            self.cxx_name@,
                            "T* ptr"@,
                        ));
                    } else {
                        reveal_strlit("");
                        assert(""@ =~= Seq::<char>::empty());
                        assert(out@ =~= prelude_entry_text(
                            self.cpp_name@,
                            ""@,
                            self.cxx_name@,
                            "char* ptr"@,
                        ));
                    }
                }
                Some(out)
            },
        }
    }
}

/// The prelude snippets of `records`, in order, skipping excluded records.
pub open spec fn prelude_parts(records: Seq<TypeRecord>) -> Seq<Seq<char>>
    decreases records.len(),
{
    if records.len() == 0 {
        Seq::<Seq<char>>::empty()
    } else {
        let rest = prelude_parts(records.drop_first());
        match prelude_entry_of(records[0]) {
            Some(v) => seq![v] + rest,
            None => rest,
        }
    }
}

/// The C++ prelude handed to the foreign-header parsing front end: every
/// included record's forward-declaration snippet, joined by newlines.
pub fn get_prelude() -> (r: String)
    ensures
        r@ == joined_with(prelude_parts(standard_records()), "\n"@),
{
    let db = create_type_database();
    let mut parts: Vec<String> = Vec::new();
    let mut i: usize = 0;
    proof {
        assert(standard_records().skip(0) =~= standard_records());
        assert(parts.deep_view() + prelude_parts(standard_records()) =~= prelude_parts(
            standard_records(),
        ));
    }
    while i < db.entries.len()
        invariant
            db.wf(),
            i <= db.entries@.len(),
            parts.deep_view() + prelude_parts(standard_records().skip(i as int)) == prelude_parts(
                standard_records(),
            ),
        decreases db.entries@.len() - i,
    {
        let ghost rs = standard_records();
        let ghost pre = parts.deep_view();
        proof {
            assert(rs[i as int] == db.entries@.map_values(|d: TypeDetails| d@)[i as int]);
            assert(rs.skip(i as int)[0] == rs[i as int]);
            assert(rs.skip(i as int).drop_first() =~= rs.skip(i + 1));
        }
        match db.entries[i].get_prelude_entry() {
            Some(s) => {
                let ghost sv = s@;
                parts.push(s);
                proof {
                    assert(parts.deep_view() =~= pre.push(sv));
                    assert(parts.deep_view() + prelude_parts(rs.skip(i + 1)) =~= pre + (seq![sv]
                        + prelude_parts(rs.skip(i + 1))));
                }
            },
            None => {},
        }
        i = i + 1;
    }
    proof {
        assert(standard_records().skip(db.entries@.len() as int) =~= Seq::<TypeRecord>::empty());
        assert(parts.deep_view() + Seq::<Seq<char>>::empty() =~= parts.deep_view());
    }
    join_all(&parts, "\n")
}

/// Every record's canonical name paired with its by-value-safety flag, in
/// registry order.
pub fn get_pod_safe_types() -> (r: Vec<(TypeName, bool)>)
    ensures
        r@.len() == standard_records().len(),
        forall|i: int|
            0 <= i < r@.len() ==> (#[trigger] r@[i]).0@ == standard_records()[i].canonical
                && r@[i].1 == standard_records()[i].by_value_safe,
{
    let db = create_type_database();
    let mut out: Vec<(TypeName, bool)> = Vec::new();
    let mut i: usize = 0;
    while i < db.entries.len()
        invariant
            db.wf(),
            i <= db.entries@.len(),
            out@.len() == i,
            forall|j: int|
                0 <= j < i ==> (#[trigger] out@[j]).0@ == standard_records()[j].canonical
                    && out@[j].1 == standard_records()[j].by_value_safe,
        decreases db.entries@.len() - i,
    {
        proof {
            assert(standard_records()[i as int] == db.entries@.map_values(|d: TypeDetails| d@)[
                i as int
            ]);
        }
        let tn = TypeName::new_unchecked(db.entries[i].cxx_name.as_str());
        out.push((tn, db.entries[i].by_value_safe));
        i = i + 1;
    }
    out
}

/// The shape of a declared type expression, as far as this core supports it.
#[derive(Debug)]
pub enum TypeExpression {
    Path { segments: Vec<String> },
    Reference { mutable: bool, referent: Box<TypeExpression> },
    Unsupported,
}

impl TypeExpression {
    /// A path carries at least one segment; references carry a well-formed
    /// referent.
    pub open spec fn wf(&self) -> bool
        decreases self,
    {
        match self {
            TypeExpression::Path { segments } => segments@.len() > 0,
            TypeExpression::Reference { referent, .. } => referent.wf(),
            TypeExpression::Unsupported => true,
        }
    }
}

/// Raised when asked to render a type expression whose shape is not among
/// the supported ones (a named path, or a reference to a named path).
#[derive(Debug, PartialEq, Eq)]
pub enum RenderError {
    UnsupportedTypeExpression,
}

/// What a type expression renders to in C++, when its shape is supported: a
/// path renders as the foreign spelling of its normalized last segment, and a
/// reference to a path as `const T&` or `T&` by declared mutability.
pub open spec fn rendered(t: TypeExpression) -> Option<Seq<char>> {
    match t {
        TypeExpression::Path { segments } => Some(
            foreign_spelling(normalized(segments.deep_view().last())),
        ),
        TypeExpression::Reference { mutable, referent } => match *referent {
            TypeExpression::Path { segments } => Some(
                (if mutable {
                    Seq::<char>::empty()
                } else {
                    "const "@
                }) + foreign_spelling(normalized(segments.deep_view().last())) + "&"@,
            ),
            _ => None,
        },
        TypeExpression::Unsupported => None,
    }
}

impl TypeName {
    /// The name a declared type contributes; only named paths are supported
    /// here.
    pub fn from_type(typ: &TypeExpression) -> (r: TypeName)
        requires
            typ.wf(),
            typ is Path,
        ensures
            (match *typ {
                TypeExpression::Path { segments } => r@ == normalized(
                    segments.deep_view().last(),
                ),
                _ => false,
            }),
    {
        match typ {
            TypeExpression::Path { segments } => TypeName::from_type_path(segments),
            _ => TypeName::new_unchecked(""),
        }
    }
}

/// Renders the C++ spelling of a declared type expression, failing on any
/// shape other than a named path or a reference to one.
pub fn to_cpp_name(typ: &TypeExpression) -> (r: Result<String, RenderError>)
    requires
        typ.wf(),
    ensures
        (match rendered(*typ) {
            Some(v) => r matches Ok(s) && s@ == v,
            None => r == Err::<String, RenderError>(RenderError::UnsupportedTypeExpression),
        }),
{
    match typ {
        TypeExpression::Path { segments } => {
            let tn = TypeName::from_type_path(segments);
            Ok(tn.to_cpp_name())
        },
        TypeExpression::Reference { mutable, referent } => {
            proof {
                assert(referent.wf());
            }
            match &**referent {
                TypeExpression::Path { segments } => {
                    proof {
                        assert(referent.wf() == (segments@.len() > 0));
                    }
                    let tn = TypeName::from_type_path(segments);
                    let inner = tn.to_cpp_name();
                    let mut out = if *mutable {
                        String::new()
                    } else {
                        String::from_str("const ")
                    };
                    out.append(inner.as_str());
                    out.append("&");
                    proof {
                        assert(out@ =~= (if *mutable {
                            Seq::<char>::empty()
                        } else {
                            "const "@
                        }) + foreign_spelling(normalized(segments.deep_view().last())) + "&"@);
                    }
                    Ok(out)
                },
                _ => Err(RenderError::UnsupportedTypeExpression),
            }
        },
        TypeExpression::Unsupported => Err(RenderError::UnsupportedTypeExpression),
    }
}

} // verus!
