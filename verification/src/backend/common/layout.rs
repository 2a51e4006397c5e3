//! Sizes, alignments and field offsets of data types.

use crate::backend::error::{outcome, Error, ErrorModel};
use crate::common::names::NameMap;
use crate::ir::gen::static_eval::quotient;
use crate::ir::types::{Dtype, DtypeModel, MemberModel, StructType};
use vstd::prelude::*;

verus! {

/// The layout of a struct.
#[derive(Debug)]
pub struct StructLayout {
    pub size: i64,
    pub align: i64,
    /// The offset of each field.
    pub field_offsets: Vec<i64>,
}

/// The mathematical model of a [`StructLayout`].
pub struct LayoutModel {
    pub size: int,
    pub align: int,
    pub offsets: Seq<int>,
}

impl View for StructLayout {
    type V = LayoutModel;

    open spec fn view(&self) -> LayoutModel {
        LayoutModel {
            size: self.size as int,
            align: self.align as int,
            offsets: Seq::new(self.field_offsets@.len(), |i: int| self.field_offsets@[i] as int),
        }
    }
}

/// The layouts of the structs of a program, by name.
pub struct StructLayouts {
    table: NameMap<StructLayout>,
}

/// The multiple of `align` that `x` is rounded to.
pub open spec fn aligned(x: int, align: int) -> int {
    if align <= 1 {
        x
    } else {
        quotient(x + align - 1, align) * align
    }
}

/// Rounding up an offset gives the least multiple of the alignment that is
/// not below it.
pub proof fn lemma_aligned_is_least(x: int, align: int)
    requires
        0 <= x,
        1 <= align,
    ensures
        x <= aligned(x, align) < x + align,
        aligned(x, align) % align == 0,
        forall|y: int| x <= y && #[trigger] (y % align) == 0 ==> aligned(x, align) <= y,
{
    if align > 1 {
        let q = (x + align - 1) / align;
        vstd::arithmetic::div_mod::lemma_fundamental_div_mod(x + align - 1, align);
        assert(align * q == q * align) by (nonlinear_arith);
        vstd::arithmetic::div_mod::lemma_mod_multiples_basic(q, align);
        assert forall|y: int| x <= y && #[trigger] (y % align) == 0 implies aligned(x, align)
            <= y by {
            let k = y / align;
            vstd::arithmetic::div_mod::lemma_fundamental_div_mod(y, align);
            assert(align * k == y);
            if q > k {
                assert(align * q >= align * k + align) by (nonlinear_arith)
                    requires
                        q > k,
                        align > 1,
                ;
            } else {
                assert(align * q <= align * k) by (nonlinear_arith)
                    requires
                        q <= k,
                        align > 1,
                ;
            }
        }
    } else {
        assert(x % 1 == 0);
    }
}

/// Rounds `x` up to a multiple of `align`.
pub fn align_up(x: i64, align: i64) -> (r: i64)
    requires
        align > 1 ==> x + align <= i64::MAX,
    ensures
        r == aligned(x as int, align as int),
{
    if align <= 1 {
        x
    } else {
        let sum: i64 = x + align - 1;
        if sum >= 0 {
            let q: u64 = (sum as u64) / (align as u64);
            proof {
                vstd::arithmetic::div_mod::lemma_fundamental_div_mod(sum as int, align as int);
                let k = sum as int / align as int;
                assert(0 <= k * align <= sum) by (nonlinear_arith)
                    requires
                        sum == align * k + sum as int % align as int,
                        sum >= 0,
                        align > 1,
                        0 <= sum as int % align as int,
                        k >= 0,
                ;
                assert(q == k);
                assert(k <= sum) by (nonlinear_arith)
                    requires
                        k * align <= sum,
                        align > 1,
                        k >= 0,
                ;
            }
            (q as i64) * align
        } else {
            // The quotient is rounded toward zero, so the sum is taken by
            // its magnitude, which fits: the sum is above `i64::MIN`.
            let magnitude: u64 = (-(sum as i128)) as u64;
            let q: u64 = magnitude / (align as u64);
            proof {
                vstd::arithmetic::div_mod::lemma_fundamental_div_mod(
                    magnitude as int,
                    align as int,
                );
                let k = magnitude as int / align as int;
                assert(0 <= k * align <= magnitude) by (nonlinear_arith)
                    requires
                        magnitude == align * k + magnitude as int % align as int,
                        magnitude >= 0,
                        align > 1,
                        0 <= magnitude as int % align as int,
                        k >= 0,
                ;
                assert(q == k);
                assert(2 * k <= magnitude) by (nonlinear_arith)
                    requires
                        k * align <= magnitude,
                        align > 1,
                        k >= 0,
                ;
                assert((-k) * align == -(k * align)) by (nonlinear_arith);
            }
            (-(q as i64)) * align
        }
    }
}

/// The size and alignment of a type.
pub open spec fn size_align(d: DtypeModel, layouts: Map<Seq<char>, LayoutModel>) -> Result<
    (int, int),
    ErrorModel,
>
    decreases d,
{
    match d {
        DtypeModel::I1 => Ok((1, 1)),
        DtypeModel::I32 => Ok((4, 4)),
        DtypeModel::Pointer(_) => Ok((8, 8)),
        DtypeModel::Array(element, length) => match size_align(*element, layouts) {
            Ok((size, align)) => Ok((length->Some_0 * size, align)),
            Err(e) => Err(e),
        },
        DtypeModel::Struct(name) => if layouts.contains_key(name) {
            Ok((layouts[name].size, layouts[name].align))
        } else {
            Err(ErrorModel::MissingStructLayout { name })
        },
        DtypeModel::Void => Err(ErrorModel::UnsupportedDtype { dtype: d }),
    }
}

/// The type has a size: no array in it has an unknown length, and the sizes
/// of all its parts are 64-bit integers.
pub open spec fn size_fits(d: DtypeModel, layouts: Map<Seq<char>, LayoutModel>) -> bool
    decreases d,
{
    match d {
        DtypeModel::Array(element, length) => {
            &&& length matches Some(n) && n <= i64::MAX
            &&& size_fits(*element, layouts)
            &&& size_align(d, layouts) matches Ok((size, _)) ==> i64::MIN <= size <= i64::MAX
        },
        _ => true,
    }
}

/// Fields placed one after the other.
pub struct Placement {
    /// The offset behind the last field.
    pub end: int,
    /// The strictest alignment of a field.
    pub align: int,
    pub offsets: Seq<int>,
}

/// The greater of two numbers.
pub open spec fn larger(a: int, b: int) -> int {
    if a >= b {
        a
    } else {
        b
    }
}

/// Places each field at the first offset behind the one before it that has
/// its alignment.
pub open spec fn placed(
    members: Seq<MemberModel>,
    layouts: Map<Seq<char>, LayoutModel>,
) -> Result<Placement, ErrorModel>
    decreases members.len(),
{
    if members.len() == 0 {
        Ok(Placement { end: 0, align: 1, offsets: Seq::empty() })
    } else {
        match placed(members.drop_last(), layouts) {
            Err(e) => Err(e),
            Ok(front) => match size_align(members.last().dtype, layouts) {
                Err(e) => Err(e),
                Ok((size, align)) => {
                    let offset = aligned(front.end, align);
                    Ok(
                        Placement {
                            end: offset + size,
                            align: larger(front.align, align),
                            offsets: front.offsets.push(offset),
                        },
                    )
                },
            },
        }
    }
}

/// All the numbers that placing the fields goes through are 64-bit integers.
pub open spec fn placement_fits(
    members: Seq<MemberModel>,
    layouts: Map<Seq<char>, LayoutModel>,
) -> bool
    decreases members.len(),
{
    members.len() > 0 ==> {
        &&& placement_fits(members.drop_last(), layouts)
        &&& placed(members.drop_last(), layouts) matches Ok(front) ==> {
            &&& size_fits(members.last().dtype, layouts)
            &&& size_align(members.last().dtype, layouts) matches Ok((size, align)) ==> {
                &&& align > 1 ==> front.end + align <= i64::MAX
                &&& aligned(front.end, align) + size <= i64::MAX
            }
        }
    }
}

/// The layout of a struct: its fields placed in order, and its size rounded
/// up to the strictest alignment.
pub open spec fn struct_layout(
    members: Seq<MemberModel>,
    layouts: Map<Seq<char>, LayoutModel>,
) -> Result<LayoutModel, ErrorModel> {
    match placed(members, layouts) {
        Err(e) => Err(e),
        Ok(p) => Ok(
            LayoutModel { size: aligned(p.end, p.align), align: p.align, offsets: p.offsets },
        ),
    }
}

/// The layout of a struct can be computed with 64-bit integers.
pub open spec fn struct_fits(
    members: Seq<MemberModel>,
    layouts: Map<Seq<char>, LayoutModel>,
) -> bool {
    &&& placement_fits(members, layouts)
    &&& placed(members, layouts) matches Ok(p) ==> (p.align > 1 ==> p.end + p.align
        <= i64::MAX)
}

/// The layouts of the structs with the given names, each computed from those
/// before it.
pub open spec fn layouts_of(
    structs: Map<Seq<char>, Seq<MemberModel>>,
    names: Seq<Seq<char>>,
) -> Result<Map<Seq<char>, LayoutModel>, ErrorModel>
    decreases names.len(),
{
    if names.len() == 0 {
        Ok(Map::empty())
    } else {
        match layouts_of(structs, names.drop_last()) {
            Err(e) => Err(e),
            Ok(front) => match struct_layout(structs[names.last()], front) {
                Err(e) => Err(e),
                Ok(layout) => Ok(front.insert(names.last(), layout)),
            },
        }
    }
}

/// All those layouts can be computed with 64-bit integers.
pub open spec fn layouts_fit(
    structs: Map<Seq<char>, Seq<MemberModel>>,
    names: Seq<Seq<char>>,
) -> bool
    decreases names.len(),
{
    names.len() > 0 ==> {
        &&& layouts_fit(structs, names.drop_last())
        &&& layouts_of(structs, names.drop_last()) matches Ok(front) ==> struct_fits(
            structs[names.last()],
            front,
        )
    }
}

/// The size is not negative, the alignment is positive and divides the size,
/// and no offset is negative.
pub open spec fn sensible_layout(l: LayoutModel) -> bool {
    &&& l.size >= 0
    &&& l.align >= 1
    &&& l.size % l.align == 0
    &&& forall|i: int| 0 <= i < l.offsets.len() ==> 0 <= #[trigger] l.offsets[i] <= i64::MAX
}

/// All layouts are sensible.
pub open spec fn sensible(layouts: Map<Seq<char>, LayoutModel>) -> bool {
    forall|n: Seq<char>| #[trigger] layouts.contains_key(n) ==> sensible_layout(layouts[n])
}

/// Every type has a size of at least zero and an alignment of at least one
/// that divides the size.
pub proof fn lemma_size_align_sensible(d: DtypeModel, layouts: Map<Seq<char>, LayoutModel>)
    requires
        sensible(layouts),
        size_align(d, layouts) is Ok,
        size_fits(d, layouts),
    ensures
        size_align(d, layouts) matches Ok((size, align)) && size >= 0 && align >= 1 && size % align
            == 0,
    decreases d,
{
    if let DtypeModel::Array(element, length) = d {
        lemma_size_align_sensible(*element, layouts);
        let (size, align) = size_align(*element, layouts)->Ok_0;
        let n = length->Some_0;
        assert(n * size >= 0) by (nonlinear_arith)
            requires
                n >= 0,
                size >= 0,
        ;
        let k = size / align;
        vstd::arithmetic::div_mod::lemma_fundamental_div_mod(size, align);
        assert(n * size == (n * k) * align) by (nonlinear_arith)
            requires
                size == align * k,
        ;
        vstd::arithmetic::div_mod::lemma_mod_multiples_basic(n * k, align);
        assert((n * size) % align == 0);
    } else if let DtypeModel::Struct(name) = d {
        assert(sensible_layout(layouts[name]));
    } else {
        assert(1int % 1 == 0 && 4int % 4 == 0 && 8int % 8 == 0);
    }
}

/// The fields of a struct do not overlap: each begins at or behind the end of
/// the one before it, at an offset with its alignment, and the last ends
/// within the struct.
pub proof fn lemma_fields_do_not_overlap(
    members: Seq<MemberModel>,
    layouts: Map<Seq<char>, LayoutModel>,
)
    requires
        sensible(layouts),
        struct_fits(members, layouts),
        struct_layout(members, layouts) is Ok,
    ensures
        struct_layout(members, layouts) matches Ok(layout) && layout.offsets.len() == members.len()
            && layout.size % layout.align == 0 && layout.align >= 1 && forall|i: int|
            0 <= i < members.len() ==> {
                &&& size_align((#[trigger] members[i]).dtype, layouts) matches Ok((size, align))
                &&& 0 <= layout.offsets[i]
                &&& layout.offsets[i] % align == 0
                &&& layout.offsets[i] + size <= if i + 1 < members.len() {
                    layout.offsets[i + 1]
                } else {
                    layout.size
                }
            },
{
    lemma_placed(members, layouts);
    let p = placed(members, layouts)->Ok_0;
    lemma_aligned_is_least(p.end, p.align);
}

proof fn lemma_placed(members: Seq<MemberModel>, layouts: Map<Seq<char>, LayoutModel>)
    requires
        sensible(layouts),
        placement_fits(members, layouts),
        placed(members, layouts) is Ok,
    ensures
        placed(members, layouts) matches Ok(p) && p.end >= 0 && p.align >= 1 && p.offsets.len()
            == members.len() && forall|i: int|
            0 <= i < members.len() ==> {
                &&& size_align((#[trigger] members[i]).dtype, layouts) matches Ok((size, align))
                &&& 0 <= p.offsets[i]
                &&& p.offsets[i] % align == 0
                &&& p.offsets[i] + size <= if i + 1 < members.len() {
                    p.offsets[i + 1]
                } else {
                    p.end
                }
            },
    decreases members.len(),
{
    if members.len() > 0 {
        lemma_placed(members.drop_last(), layouts);
        let front = placed(members.drop_last(), layouts)->Ok_0;
        lemma_size_align_sensible(members.last().dtype, layouts);
        let (size, align) = size_align(members.last().dtype, layouts)->Ok_0;
        lemma_aligned_is_least(front.end, align);
        assert forall|i: int| 0 <= i < members.len() implies {
            let p = placed(members, layouts)->Ok_0;
            &&& size_align((#[trigger] members[i]).dtype, layouts) matches Ok((size, align))
            &&& 0 <= p.offsets[i]
            &&& p.offsets[i] % align == 0
            &&& p.offsets[i] + size <= if i + 1 < members.len() {
                p.offsets[i + 1]
            } else {
                p.end
            }
        } by {
            if i < members.len() - 1 {
                assert(members.drop_last()[i] == members[i]);
            }
        }
    }
}

impl View for StructLayouts {
    type V = Map<Seq<char>, LayoutModel>;

    closed spec fn view(&self) -> Map<Seq<char>, LayoutModel> {
        self.table@
    }
}

impl StructLayouts {
    /// The table is well formed, and so are the layouts in it.
    pub closed spec fn wf(&self) -> bool {
        self.table.wf() && sensible(self.table@)
    }

    /// The layouts of a well-formed table are sensible.
    pub proof fn lemma_sensible(&self)
        requires
            self.wf(),
        ensures
            sensible(self@),
    {
    }

    /// Computes the layouts of all structs, in order of definition.
    pub fn from_struct_types(structs: &NameMap<StructType>) -> (r: Result<Self, Error>)
        requires
            structs.wf(),
            layouts_fit(structs@, structs.names()),
        ensures
            outcome(r) == layouts_of(structs@, structs.names()),
            r matches Ok(l) ==> l.wf(),
    {
        let mut layouts = StructLayouts { table: NameMap::new() };
        let ghost names = structs.names();
        let mut i: usize = 0;
        assert(names.take(0) =~= Seq::empty());
        assert(names.take(names.len() as int) =~= names);
        while i < structs.len()
            invariant
                i <= names.len(),
                structs.wf(),
                names == structs.names(),
                layouts.wf(),
                layouts_fit(structs@, names),
                layouts_of(structs@, names.take(i as int)) == Ok::<
                    Map<Seq<char>, LayoutModel>,
                    ErrorModel,
                >(layouts@),
            decreases names.len() - i,
        {
            proof {
                assert(names.take(i + 1).drop_last() =~= names.take(i as int));
                lemma_layouts_fit_prefix(structs@, names, i + 1);
            }
            match layouts.compute_single_layout(structs.value_at(i)) {
                Ok(layout) => {
                    layouts.insert(structs.name_at(i).clone(), layout);
                },
                Err(e) => {
                    proof {
                        lemma_layouts_of_stops(structs@, names, i + 1);
                    }
                    return Err(e);
                },
            }
            i = i + 1;
        }
        assert(names.take(i as int) =~= names);
        Ok(layouts)
    }

    /// Whether the layouts of all structs can be computed with 64-bit integers.
    pub fn fit(structs: &NameMap<StructType>) -> (b: bool)
        requires
            structs.wf(),
        ensures
            b == layouts_fit(structs@, structs.names()),
    {
        let mut layouts = StructLayouts { table: NameMap::new() };
        let ghost names = structs.names();
        let mut i: usize = 0;
        assert(names.take(0) =~= Seq::empty());
        while i < structs.len()
            invariant
                i <= names.len(),
                structs.wf(),
                names == structs.names(),
                layouts.wf(),
                layouts_fit(structs@, names.take(i as int)),
                layouts_of(structs@, names.take(i as int)) == Ok::<
                    Map<Seq<char>, LayoutModel>,
                    ErrorModel,
                >(layouts@),
            decreases names.len() - i,
        {
            proof {
                assert(names.take(i + 1).drop_last() =~= names.take(i as int));
                if layouts_fit(structs@, names) {
                    lemma_layouts_fit_prefix(structs@, names, i + 1);
                }
            }
            let st = structs.value_at(i);
            if !layouts.members_fit(st) {
                return false;
            }
            match layouts.compute_single_layout(st) {
                Ok(layout) => {
                    layouts.insert(structs.name_at(i).clone(), layout);
                },
                Err(_) => {
                    proof {
                        lemma_layouts_of_stops(structs@, names, i + 1);
                    }
                    return true;
                },
            }
            i = i + 1;
        }
        assert(names.take(i as int) =~= names);
        true
    }

    /// Whether the layout of a struct can be computed with 64-bit integers.
    fn members_fit(&self, st: &StructType) -> (b: bool)
        requires
            self.wf(),
        ensures
            b == struct_fits(st@, self@),
    {
        let mut offset: i64 = 0;
        let mut max_align: i64 = 1;
        let ghost members = st@;
        let mut i: usize = 0;
        assert(members.take(0) =~= Seq::empty());
        while i < st.elements.len()
            invariant
                i <= members.len(),
                members == st@,
                self.wf(),
                placement_fits(members.take(i as int), self@),
                offset >= 0,
                max_align >= 1,
                placed(members.take(i as int), self@) matches Ok(p) && p.end == offset && p.align
                    == max_align,
            decreases members.len() - i,
        {
            proof {
                assert(members.take(i + 1).drop_last() =~= members.take(i as int));
                if placement_fits(members, self@) {
                    lemma_placement_fits_prefix(members, self@, i + 1);
                }
            }
            let dtype = &st.elements[i].1.dtype;
            if !self.size_fits_for(dtype) {
                return false;
            }
            let (size, align) = match self.size_align_of(dtype) {
                Ok(sa) => sa,
                Err(_) => {
                    proof {
                        lemma_placed_stops(members, self@, i + 1);
                    }
                    return true;
                },
            };
            proof {
                lemma_size_align_sensible(members[i as int].dtype, self@);
                lemma_aligned_is_least(offset as int, align as int);
            }
            if align > 1 && offset > i64::MAX - align {
                return false;
            }
            let start: i64 = align_up(offset, align);
            if start > i64::MAX - size {
                return false;
            }
            if align > max_align {
                max_align = align;
            }
            offset = start + size;
            i = i + 1;
        }
        assert(members.take(i as int) =~= members);
        max_align <= 1 || offset <= i64::MAX - max_align
    }

    /// Whether the type has a size that is a 64-bit integer.
    pub fn size_fits_for(&self, dtype: &Dtype) -> (b: bool)
        requires
            self.wf(),
        ensures
            b == size_fits(dtype@, self@),
        decreases dtype,
    {
        match dtype {
            Dtype::Array { element, length } => {
                let n: usize = match length {
                    Some(n) => *n,
                    None => {
                        return false;
                    },
                };
                if n as u64 > 0x7fff_ffff_ffff_ffff || !self.size_fits_for(element) {
                    return false;
                }
                match self.size_align_of(element) {
                    Ok((size, _)) => (n as i64).checked_mul(size).is_some(),
                    Err(_) => true,
                }
            },
            _ => true,
        }
    }

    /// The layout of the struct `name`.
    pub fn get(&self, name: &str) -> (layout: Option<&StructLayout>)
        requires
            self.wf(),
        ensures
            match layout {
                Some(l) => self@.contains_key(name@) && self@[name@] == l@,
                None => !self@.contains_key(name@),
            },
    {
        self.table.get(name)
    }

    fn insert(&mut self, name: String, layout: StructLayout)
        requires
            old(self).wf(),
            sensible_layout(layout@),
        ensures
            final(self).wf(),
            final(self)@ == old(self)@.insert(name@, layout@),
    {
        self.table.insert(name, layout);
    }

    /// The size and alignment of a type.
    pub fn size_align_of(&self, dtype: &Dtype) -> (r: Result<(i64, i64), Error>)
        requires
            self.wf(),
            size_fits(dtype@, self@),
        ensures
            match r {
                Ok((size, align)) => size_align(dtype@, self@) == Ok::<(int, int), ErrorModel>(
                    (size as int, align as int),
                ),
                Err(e) => size_align(dtype@, self@) == Err::<(int, int), ErrorModel>(e@),
            },
        decreases dtype,
    {
        match dtype {
            Dtype::I1 => Ok((1, 1)),
            Dtype::I32 => Ok((4, 4)),
            Dtype::Pointer { .. } => Ok((8, 8)),
            Dtype::Array { element, length } => {
                let len: i64 = length.unwrap() as i64;
                match self.size_align_of(element) {
                    Ok((size, align)) => {
                        assert(size_align(dtype@, self@) == Ok::<(int, int), ErrorModel>(
                            (length->Some_0 * size, align as int),
                        ));
                        assert(len * size == length->Some_0 * size);
                        Ok((len * size, align))
                    },
                    Err(e) => Err(e),
                }
            },
            Dtype::Struct { name } => match self.get(name.as_str()) {
                Some(layout) => Ok((layout.size, layout.align)),
                None => Err(Error::MissingStructLayout { name: name.clone() }),
            },
            Dtype::Void => Err(Error::UnsupportedDtype { dtype: dtype.clone() }),
        }
    }

    fn compute_single_layout(&self, st: &StructType) -> (r: Result<StructLayout, Error>)
        requires
            self.wf(),
            struct_fits(st@, self@),
        ensures
            outcome(r) == struct_layout(st@, self@),
            r matches Ok(l) ==> sensible_layout(l@),
    {
        let mut field_offsets: Vec<i64> = Vec::new();
        let mut offset: i64 = 0;
        let mut max_align: i64 = 1;
        let ghost members = st@;
        let mut i: usize = 0;
        assert(members.take(0) =~= Seq::empty());
        assert(members.take(members.len() as int) =~= members);
        while i < st.elements.len()
            invariant
                i <= members.len(),
                members == st@,
                self.wf(),
                placement_fits(members, self@),
                offset >= 0,
                max_align >= 1,
                forall|j: int| 0 <= j < field_offsets@.len() ==> 0 <= #[trigger] field_offsets@[j],
                placed(members.take(i as int), self@) matches Ok(p) && p.end == offset && p.align
                    == max_align && p.offsets =~= Seq::new(
                    field_offsets@.len(),
                    |j: int| field_offsets@[j] as int,
                ),
            decreases members.len() - i,
        {
            proof {
                assert(members.take(i + 1).drop_last() =~= members.take(i as int));
                lemma_placement_fits_prefix(members, self@, i + 1);
            }
            let ghost before = field_offsets@;
            let (size, align) = match self.size_align_of(&st.elements[i].1.dtype) {
                Ok(sa) => sa,
                Err(e) => {
                    proof {
                        lemma_placed_stops(members, self@, i + 1);
                    }
                    return Err(e);
                },
            };
            proof {
                lemma_size_align_sensible(members[i as int].dtype, self@);
                lemma_aligned_is_least(offset as int, align as int);
            }
            offset = align_up(offset, align);
            if align > max_align {
                max_align = align;
            }
            field_offsets.push(offset);
            assert(Seq::new(field_offsets@.len(), |j: int| field_offsets@[j] as int) =~= Seq::new(
                before.len(),
                |j: int| before[j] as int,
            ).push(offset as int));
            offset = offset + size;
            i = i + 1;
        }
        assert(members.take(i as int) =~= members);
        proof {
            lemma_aligned_is_least(offset as int, max_align as int);
        }
        Ok(StructLayout { size: align_up(offset, max_align), align: max_align, field_offsets })
    }
}

proof fn lemma_layouts_fit_prefix(
    structs: Map<Seq<char>, Seq<MemberModel>>,
    names: Seq<Seq<char>>,
    k: int,
)
    requires
        layouts_fit(structs, names),
        0 <= k <= names.len(),
    ensures
        layouts_fit(structs, names.take(k)),
    decreases names.len() - k,
{
    if k < names.len() {
        lemma_layouts_fit_prefix(structs, names, k + 1);
        assert(names.take(k + 1).drop_last() =~= names.take(k));
    } else {
        assert(names.take(k) =~= names);
    }
}

proof fn lemma_layouts_of_stops(
    structs: Map<Seq<char>, Seq<MemberModel>>,
    names: Seq<Seq<char>>,
    k: int,
)
    requires
        0 <= k <= names.len(),
        layouts_of(structs, names.take(k)) is Err,
    ensures
        layouts_of(structs, names) == layouts_of(structs, names.take(k)),
        layouts_fit(structs, names.take(k)) ==> layouts_fit(structs, names),
    decreases names.len() - k,
{
    if k < names.len() {
        assert(names.take(k + 1).drop_last() =~= names.take(k));
        lemma_layouts_of_stops(structs, names, k + 1);
    } else {
        assert(names.take(k) =~= names);
    }
}

proof fn lemma_placement_fits_prefix(
    members: Seq<MemberModel>,
    layouts: Map<Seq<char>, LayoutModel>,
    k: int,
)
    requires
        placement_fits(members, layouts),
        0 <= k <= members.len(),
    ensures
        placement_fits(members.take(k), layouts),
    decreases members.len() - k,
{
    if k < members.len() {
        lemma_placement_fits_prefix(members, layouts, k + 1);
        assert(members.take(k + 1).drop_last() =~= members.take(k));
    } else {
        assert(members.take(k) =~= members);
    }
}

proof fn lemma_placed_stops(
    members: Seq<MemberModel>,
    layouts: Map<Seq<char>, LayoutModel>,
    k: int,
)
    requires
        0 <= k <= members.len(),
        placed(members.take(k), layouts) is Err,
    ensures
        placed(members, layouts) == placed(members.take(k), layouts),
        placement_fits(members.take(k), layouts) ==> placement_fits(members, layouts),
    decreases members.len() - k,
{
    if k < members.len() {
        assert(members.take(k + 1).drop_last() =~= members.take(k));
        lemma_placed_stops(members, layouts, k + 1);
    } else {
        assert(members.take(k) =~= members);
    }
}

} // verus!
