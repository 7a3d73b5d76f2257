use vstd::prelude::*;

verus! {

/// `size` rounded up to the next multiple of `alignment`.
pub open spec fn next_multiple_of(size: int, alignment: int) -> int {
    if size % alignment == 0 {
        size
    } else {
        size + (alignment - size % alignment)
    }
}

/// The type facts that type-erased storage needs: an identifier standing for
/// the type, its size and its alignment. Two type infos are equal when their
/// identifiers are.
#[derive(Clone, Copy, Debug)]
pub struct TypeInfo {
    type_id: u64,
    size: usize,
    alignment: usize,
}

impl TypeInfo {
    #[verifier::type_invariant]
    spec fn layout_fits(self) -> bool {
        self.alignment > 0 && self.size + self.alignment <= usize::MAX
    }

    /// The type's identifier.
    pub closed spec fn id(&self) -> u64 {
        self.type_id
    }

    pub closed spec fn size_spec(&self) -> usize {
        self.size
    }

    pub closed spec fn alignment_spec(&self) -> usize {
        self.alignment
    }

    /// The distance between two elements: the size plus the part of an
    /// alignment that it leaves over, a whole alignment when the size is
    /// already a multiple of it.
    pub closed spec fn stride_spec(&self) -> usize {
        (self.size + (self.alignment - self.size % self.alignment)) as usize
    }

    pub fn new(type_id: u64, size: usize, alignment: usize) -> (r: Self)
        requires
            alignment > 0,
            size + alignment <= usize::MAX,
        ensures
            r.id() == type_id,
            r.size_spec() == size,
            r.alignment_spec() == alignment,
    {
        TypeInfo { type_id, size, alignment }
    }

    pub fn type_id(&self) -> (r: u64)
        ensures
            r == self.id(),
    {
        self.type_id
    }

    pub fn size(&self) -> (r: usize)
        ensures
            r == self.size_spec(),
    {
        self.size
    }

    pub fn alignment(&self) -> (r: usize)
        ensures
            r == self.alignment_spec(),
    {
        self.alignment
    }

    pub fn stride(&self) -> (r: usize)
        ensures
            r == self.stride_spec(),
            r == self.size_spec() + (self.alignment_spec() - self.size_spec() % self.alignment_spec()),
            self.alignment_spec() > 0,
            self.size_spec() < r,
    {
        proof {
            use_type_invariant(self);
        }
        let rem = self.alignment - (self.size % self.alignment);
        self.size + rem
    }
}

impl PartialEq for TypeInfo {
    fn eq(&self, other: &Self) -> (r: bool) {
        self.type_id == other.type_id
    }
}

impl vstd::std_specs::cmp::PartialEqSpecImpl for TypeInfo {
    open spec fn obeys_eq_spec() -> bool {
        true
    }

    open spec fn eq_spec(&self, other: &Self) -> bool {
        self.id() == other.id()
    }
}

impl Eq for TypeInfo {

}

/// The type facts of a cloneable type: its identifier, size and alignment.
#[derive(Clone, Copy, Debug, PartialEq, Eq, Structural)]
pub struct TypeInfoCloneable {
    type_id: u64,
    size: usize,
    alignment: usize,
}

impl TypeInfoCloneable {
    #[verifier::type_invariant]
    spec fn layout_fits(self) -> bool {
        self.alignment > 0 && self.size + self.alignment <= usize::MAX
    }

    pub closed spec fn id(&self) -> u64 {
        self.type_id
    }

    pub closed spec fn size_spec(&self) -> usize {
        self.size
    }

    pub closed spec fn alignment_spec(&self) -> usize {
        self.alignment
    }

    /// The size rounded up to a multiple of the alignment.
    pub closed spec fn stride_spec(&self) -> usize {
        next_multiple_of(self.size as int, self.alignment as int) as usize
    }

    pub fn new(type_id: u64, size: usize, alignment: usize) -> (r: Self)
        requires
            alignment > 0,
            size + alignment <= usize::MAX,
        ensures
            r.id() == type_id,
            r.size_spec() == size,
            r.alignment_spec() == alignment,
    {
        TypeInfoCloneable { type_id, size, alignment }
    }

    pub fn type_id(&self) -> (r: u64)
        ensures
            r == self.id(),
    {
        self.type_id
    }

    pub fn size(&self) -> (r: usize)
        ensures
            r == self.size_spec(),
    {
        self.size
    }

    pub fn alignment(&self) -> (r: usize)
        ensures
            r == self.alignment_spec(),
    {
        self.alignment
    }

    pub fn stride(&self) -> (r: usize)
        ensures
            r == self.stride_spec(),
            r == next_multiple_of(self.size_spec() as int, self.alignment_spec() as int),
            self.alignment_spec() > 0,
            self.size_spec() <= r,
    {
        proof {
            use_type_invariant(self);
        }
        let rem = self.size % self.alignment;
        if rem == 0 {
            self.size
        } else {
            self.size + (self.alignment - rem)
        }
    }
}

/// The bytes of element `i`: the first `size` bytes of the record, then
/// padding up to the stride.
pub open spec fn record_of(bytes: Seq<u8>, size: nat, stride: nat) -> Seq<u8> {
    bytes.subrange(0, size as int) + Seq::new((stride - size) as nat, |k: int| 0u8)
}

/// Records of a fixed stride packed back to back in one byte buffer.
struct PackedBytes {
    data: Vec<u8>,
    elem_size: usize,
    stride: usize,
    len: usize,
}

impl PackedBytes {
    spec fn wf(&self) -> bool {
        &&& self.elem_size <= self.stride
        &&& self.data@.len() == self.len * self.stride
    }

    spec fn records(&self) -> Seq<Seq<u8>> {
        Seq::new(
            self.len as nat,
            |i: int| self.data@.subrange(i * self.stride, (i + 1) * self.stride),
        )
    }

    fn new(elem_size: usize, stride: usize) -> (r: Self)
        requires
            elem_size <= stride,
        ensures
            r.wf(),
            r.records() == Seq::<Seq<u8>>::empty(),
            r.elem_size == elem_size,
            r.stride == stride,
    {
        let r = PackedBytes { data: Vec::new(), elem_size, stride, len: 0 };
        assert(r.records() =~= Seq::<Seq<u8>>::empty());
        r
    }

    proof fn lemma_records_prefix(&self, longer: Seq<u8>)
        requires
            self.wf(),
            longer.subrange(0, self.data@.len() as int) == self.data@,
            longer.len() >= self.data@.len(),
        ensures
            forall|i: int|
                0 <= i < self.len ==> #[trigger] longer.subrange(i * self.stride, (i + 1) * self.stride)
                    == self.records()[i],
    {
        let st = self.stride as int;
        let l = self.len as int;
        assert forall|i: int| 0 <= i < self.len implies #[trigger] longer.subrange(
            i * self.stride,
            (i + 1) * self.stride,
        ) == self.records()[i] by {
            assert((i + 1) * st <= l * st && 0 <= i * st && i * st <= (i + 1) * st) by (nonlinear_arith)
                requires
                    0 <= i < l,
                    st >= 0,
            ;
            assert forall|j: int| 0 <= j < self.data@.len() implies longer[j] == self.data@[j] by {
                assert(longer.subrange(0, self.data@.len() as int)[j] == longer[j]);
            }
            assert(longer.subrange(i * self.stride, (i + 1) * self.stride) =~= self.data@.subrange(
                i * self.stride,
                (i + 1) * self.stride,
            ));
        }
    }

    fn push(&mut self, bytes: &[u8])
        requires
            old(self).wf(),
            bytes@.len() >= old(self).elem_size,
            (old(self).len + 1) * old(self).stride <= usize::MAX,
            old(self).len < usize::MAX,
        ensures
            final(self).wf(),
            final(self).elem_size == old(self).elem_size,
            final(self).stride == old(self).stride,
            final(self).records() == old(self).records().push(
                record_of(bytes@, old(self).elem_size as nat, old(self).stride as nat),
            ),
    {
        let ghost old_data = self.data@;
        let mut k: usize = 0;
        proof {
            vstd::arithmetic::mul::lemma_mul_is_distributive_add_other_way(self.stride as int, self.len as int, 1);
        }
        while k < self.stride
            invariant
                k <= self.stride,
                self.elem_size <= self.stride,
                self.data@.len() == old_data.len() + k,
                self.data@.subrange(0, old_data.len() as int) == old_data,
                old_data.len() == self.len * self.stride,
                bytes@.len() >= self.elem_size,
                self.elem_size == old(self).elem_size,
                self.stride == old(self).stride,
                self.len == old(self).len,
                old_data == old(self).data@,
                old_data.len() + self.stride <= usize::MAX,
                forall|q: int|
                    0 <= q < k ==> #[trigger] self.data@[old_data.len() + q] == (if q < self.elem_size {
                        bytes@[q]
                    } else {
                        0u8
                    }),
            decreases self.stride - k,
        {
            let b = if k < self.elem_size {
                bytes[k]
            } else {
                0u8
            };
            let ghost before = self.data@;
            self.data.push(b);
            proof {
                assert(self.data@.subrange(0, old_data.len() as int) =~= before.subrange(0, old_data.len() as int));
            }
            k = k + 1;
        }
        let ghost old_self = *old(self);
        self.len = self.len + 1;
        proof {
            old_self.lemma_records_prefix(self.data@);
            let rec = record_of(bytes@, self.elem_size as nat, self.stride as nat);
            let n = old_self.len as int;
            let st = self.stride as int;
            assert((n + 1) * st == n * st + st) by (nonlinear_arith);
            assert forall|k: int| 0 <= k < st implies #[trigger] self.data@.subrange(n * st, (n + 1) * st)[k] == rec[k] by {
                assert(self.data@[old_data.len() + k] == (if k < self.elem_size { bytes@[k] } else { 0u8 }));
            }
            assert(self.data@.subrange(n * self.stride, (n + 1) * self.stride) =~= rec);
            assert(self.records() =~= old_self.records().push(rec));
        }
    }

    fn write(&mut self, index: usize, bytes: &[u8])
        requires
            old(self).wf(),
            index < old(self).len,
            bytes@.len() >= old(self).elem_size,
        ensures
            final(self).wf(),
            final(self).elem_size == old(self).elem_size,
            final(self).stride == old(self).stride,
            final(self).records() == old(self).records().update(
                index as int,
                bytes@.subrange(0, old(self).elem_size as int) + old(self).records()[index as int].subrange(
                    old(self).elem_size as int,
                    old(self).stride as int,
                ),
            ),
    {
        let ghost old_data = self.data@;
        let st = self.stride;
        let _dl = self.data.len();
        proof {
            assert((index + 1) * st <= self.len * st && 0 <= index * st && (index + 1) * st == index * st + st)
                by (nonlinear_arith)
                requires
                    0 <= index < self.len,
                    st >= 0,
            ;
        }
        let base = index * st;
        let mut k: usize = 0;
        while k < self.elem_size
            invariant
                k <= self.elem_size,
                self.elem_size <= self.stride,
                self.elem_size == old(self).elem_size,
                self.stride == old(self).stride,
                self.len == old(self).len,
                st == self.stride,
                base == index * st,
                base + st <= old_data.len(),
                old_data.len() == _dl,
                bytes@.len() >= self.elem_size,
                self.data@.len() == old_data.len(),
                old_data == old(self).data@,
                forall|q: int| 0 <= q < old_data.len() && !(base <= q < base + k) ==> #[trigger] self.data@[q] == old_data[q],
                forall|q: int| base <= q < base + k ==> #[trigger] self.data@[q] == bytes@[q - base],
            decreases self.elem_size - k,
        {
            self.data.set(base + k, bytes[k]);
            k = k + 1;
        }
        proof {
            let old_recs = old(self).records();
            let new_rec = bytes@.subrange(0, self.elem_size as int) + old_recs[index as int].subrange(
                self.elem_size as int,
                self.stride as int,
            );
            assert forall|i: int| 0 <= i < self.len implies #[trigger] self.records()[i] == old_recs.update(index as int, new_rec)[i] by {
                let ii = i;
                assert((ii + 1) * st <= self.len * st && 0 <= ii * st && (ii + 1) * st == ii * st + st)
                    by (nonlinear_arith)
                    requires
                        0 <= ii < self.len,
                        st >= 0,
                ;
                if i == index as int {
                    assert(self.records()[i] =~= new_rec);
                } else {
                    assert(i < index ==> (i + 1) * st <= index * st) by (nonlinear_arith)
                        requires
                            st >= 0,
                    ;
                    assert(i > index ==> (index + 1) * st <= i * st) by (nonlinear_arith)
                        requires
                            st >= 0,
                    ;
                    assert(self.records()[i] =~= old_recs[i]);
                }
            }
            assert(self.records() =~= old_recs.update(index as int, new_rec));
        }
    }

    fn get(&self, index: usize) -> (r: &[u8])
        requires
            self.wf(),
            index < self.len,
        ensures
            r@ == self.records()[index as int],
    {
        let st = self.stride;
        let _dl = self.data.len();
        proof {
            assert((index + 1) * st <= self.len * st && 0 <= index * st && (index + 1) * st == index * st + st)
                by (nonlinear_arith)
                requires
                    0 <= index < self.len,
                    st >= 0,
            ;
        }
        vstd::slice::slice_subrange(self.data.as_slice(), index * st, index * st + st)
    }

    fn clear(&mut self)
        requires
            old(self).wf(),
        ensures
            final(self).wf(),
            final(self).records() == Seq::<Seq<u8>>::empty(),
            final(self).elem_size == old(self).elem_size,
            final(self).stride == old(self).stride,
    {
        self.data.clear();
        self.len = 0;
        assert(self.records() =~= Seq::<Seq<u8>>::empty());
    }
}


/// A vector of values of one type known only by its type facts, each value
/// held as the bytes of its record.
pub struct DynVec {
    type_info: TypeInfo,
    bytes: PackedBytes,
}

impl DynVec {
    /// The records match the type facts.
    pub closed spec fn wf(&self) -> bool {
        &&& self.bytes.wf()
        &&& self.bytes.elem_size == self.type_info.size_spec()
        &&& self.bytes.stride == self.type_info.stride_spec()
    }

    /// The element records, each `stride` bytes long.
    pub closed spec fn elements(&self) -> Seq<Seq<u8>> {
        self.bytes.records()
    }

    pub closed spec fn type_info_spec(&self) -> TypeInfo {
        self.type_info
    }

    pub fn new(type_info: TypeInfo) -> (r: Self)
        ensures
            r.wf(),
            r.elements() == Seq::<Seq<u8>>::empty(),
            r.type_info_spec() == type_info,
    {
        let stride = type_info.stride();
        let size = type_info.size();
        DynVec { type_info, bytes: PackedBytes::new(size, stride) }
    }

    /// Appends a record made of the first `size` bytes of `bytes`, padded
    /// with zeros up to the stride.
    pub fn push_unchecked(&mut self, bytes: &[u8])
        requires
            old(self).wf(),
            bytes@.len() >= old(self).type_info_spec().size_spec(),
            (old(self).elements().len() + 1) * old(self).type_info_spec().stride_spec() <= usize::MAX,
            old(self).elements().len() < usize::MAX,
        ensures
            final(self).wf(),
            final(self).type_info_spec() == old(self).type_info_spec(),
            final(self).elements() == old(self).elements().push(
                record_of(
                    bytes@,
                    old(self).type_info_spec().size_spec() as nat,
                    old(self).type_info_spec().stride_spec() as nat,
                ),
            ),
    {
        self.bytes.push(bytes);
    }

    /// Forgets every element without dropping anything: whoever wraps the
    /// vector takes over that duty.
    pub fn forget_data(&mut self)
        requires
            old(self).wf(),
        ensures
            final(self).wf(),
            final(self).elements() == Seq::<Seq<u8>>::empty(),
            final(self).type_info_spec() == old(self).type_info_spec(),
    {
        self.bytes.clear();
    }

    /// Overwrites the first `size` bytes of element `index` with those of
    /// `bytes`; its padding stays as it was.
    pub fn write_unchecked(&mut self, index: usize, bytes: &[u8])
        requires
            old(self).wf(),
            index < old(self).elements().len(),
            bytes@.len() >= old(self).type_info_spec().size_spec(),
        ensures
            final(self).wf(),
            final(self).type_info_spec() == old(self).type_info_spec(),
            final(self).elements() == old(self).elements().update(
                index as int,
                bytes@.subrange(0, old(self).type_info_spec().size_spec() as int)
                    + old(self).elements()[index as int].subrange(
                    old(self).type_info_spec().size_spec() as int,
                    old(self).type_info_spec().stride_spec() as int,
                ),
            ),
    {
        self.bytes.write(index, bytes);
    }

    /// The record of element `index`.
    pub fn get_bytes(&self, index: usize) -> (r: &[u8])
        requires
            self.wf(),
            index < self.elements().len(),
        ensures
            r@ == self.elements()[index as int],
    {
        self.bytes.get(index)
    }

    pub fn type_info(&self) -> (r: &TypeInfo)
        ensures
            *r == self.type_info_spec(),
    {
        &self.type_info
    }

    /// Every record is `stride` bytes long, and the size fits in the stride.
    pub proof fn lemma_element_len(&self, i: int)
        requires
            self.wf(),
            0 <= i < self.elements().len(),
        ensures
            self.elements()[i].len() == self.type_info_spec().stride_spec(),
            self.type_info_spec().size_spec() <= self.type_info_spec().stride_spec(),
    {
        let st = self.bytes.stride as int;
        let l = self.bytes.len as int;
        assert((i + 1) * st <= l * st && 0 <= i * st && (i + 1) * st == i * st + st) by (nonlinear_arith)
            requires
                0 <= i < l,
                st >= 0,
        ;
        assert(self.elements()[i] == self.bytes.data@.subrange(i * st, (i + 1) * st));
    }

    pub fn is_empty(&self) -> (r: bool)
        ensures
            r == (self.elements().len() == 0),
    {
        self.bytes.len == 0
    }

    /// Forgets every element.
    pub fn clear(&mut self)
        requires
            old(self).wf(),
        ensures
            final(self).wf(),
            final(self).elements() == Seq::<Seq<u8>>::empty(),
            final(self).type_info_spec() == old(self).type_info_spec(),
    {
        self.bytes.clear();
    }

    pub fn len(&self) -> (r: usize)
        ensures
            r == self.elements().len(),
    {
        self.bytes.len
    }

    pub fn iter<T>(&self) -> (r: DynVecIter<'_, T>)
        ensures
            r.position() == 0,
            r.elements() == self.elements(),
            r.wf() == self.wf(),
    {
        DynVecIter { vec: self, i: 0, _marker: core::marker::PhantomData }
    }
}

/// Walks the element records of a type-erased vector in order.
pub struct DynVecIter<'a, T> {
    vec: &'a DynVec,
    i: usize,
    _marker: core::marker::PhantomData<T>,
}

impl<'a, T> DynVecIter<'a, T> {
    pub closed spec fn position(&self) -> int {
        self.i as int
    }

    pub closed spec fn elements(&self) -> Seq<Seq<u8>> {
        self.vec.elements()
    }

    pub closed spec fn wf(&self) -> bool {
        self.vec.wf()
    }

    pub fn new(vec: &'a DynVec) -> (r: Self)
        ensures
            r.position() == 0,
            r.elements() == vec.elements(),
            r.wf() == vec.wf(),
    {
        DynVecIter { vec, i: 0, _marker: core::marker::PhantomData }
    }

    /// The record at the position, which then advances; nothing past the end.
    pub fn next(&mut self) -> (r: Option<&'a [u8]>)
        requires
            old(self).wf(),
            old(self).position() <= old(self).elements().len(),
        ensures
            final(self).elements() == old(self).elements(),
            final(self).wf() == old(self).wf(),
            old(self).position() == old(self).elements().len() ==> r is None && final(self).position() == old(self).position(),
            old(self).position() < old(self).elements().len() ==> r is Some && r.unwrap()@ == old(self).elements()[old(self).position()]
                && final(self).position() == old(self).position() + 1,
    {
        if self.i == self.vec.len() {
            return None;
        }
        let next = self.vec.get_bytes(self.i);
        self.i = self.i + 1;
        Some(next)
    }
}

/// Walks the element indices of a type-erased vector in order, for writing
/// through `write_unchecked`.
pub struct DynVecIterMut<T> {
    i: usize,
    _marker: core::marker::PhantomData<T>,
}

impl<T> DynVecIterMut<T> {
    pub closed spec fn position(&self) -> int {
        self.i as int
    }

    pub fn new(vec: &DynVec) -> (r: Self)
        ensures
            r.position() == 0,
    {
        DynVecIterMut { i: 0, _marker: core::marker::PhantomData }
    }

    /// The index at the position, which then advances; nothing past the end.
    pub fn next(&mut self, vec: &DynVec) -> (r: Option<usize>)
        ensures
            old(self).position() >= vec.elements().len() ==> r is None && final(self).position() == old(self).position(),
            old(self).position() < vec.elements().len() ==> r == Some(old(self).position() as usize)
                && final(self).position() == old(self).position() + 1,
    {
        if self.i >= vec.len() {
            return None;
        }
        let i = self.i;
        self.i = self.i + 1;
        Some(i)
    }
}

/// A vector of values of one type known only by its type facts, each value
/// held as the bytes of its record.
pub struct DynVecCloneable {
    type_info: TypeInfoCloneable,
    bytes: PackedBytes,
}

impl DynVecCloneable {
    /// The records match the type facts.
    pub closed spec fn wf(&self) -> bool {
        &&& self.bytes.wf()
        &&& self.bytes.elem_size == self.type_info.size_spec()
        &&& self.bytes.stride == self.type_info.stride_spec()
    }

    /// The element records, each `stride` bytes long.
    pub closed spec fn elements(&self) -> Seq<Seq<u8>> {
        self.bytes.records()
    }

    pub closed spec fn type_info_spec(&self) -> TypeInfoCloneable {
        self.type_info
    }

    pub fn new(type_info: TypeInfoCloneable) -> (r: Self)
        ensures
            r.wf(),
            r.elements() == Seq::<Seq<u8>>::empty(),
            r.type_info_spec() == type_info,
    {
        let stride = type_info.stride();
        let size = type_info.size();
        DynVecCloneable { type_info, bytes: PackedBytes::new(size, stride) }
    }

    /// Appends a record made of the first `size` bytes of `bytes`, padded
    /// with zeros up to the stride.
    pub fn push_unchecked(&mut self, bytes: &[u8])
        requires
            old(self).wf(),
            bytes@.len() >= old(self).type_info_spec().size_spec(),
            (old(self).elements().len() + 1) * old(self).type_info_spec().stride_spec() <= usize::MAX,
            old(self).elements().len() < usize::MAX,
        ensures
            final(self).wf(),
            final(self).type_info_spec() == old(self).type_info_spec(),
            final(self).elements() == old(self).elements().push(
                record_of(
                    bytes@,
                    old(self).type_info_spec().size_spec() as nat,
                    old(self).type_info_spec().stride_spec() as nat,
                ),
            ),
    {
        self.bytes.push(bytes);
    }

    /// The record of element `index`.
    pub fn get_bytes(&self, index: usize) -> (r: &[u8])
        requires
            self.wf(),
            index < self.elements().len(),
        ensures
            r@ == self.elements()[index as int],
    {
        self.bytes.get(index)
    }

    pub fn type_info(&self) -> (r: &TypeInfoCloneable)
        ensures
            *r == self.type_info_spec(),
    {
        &self.type_info
    }

    pub fn is_empty(&self) -> (r: bool)
        ensures
            r == (self.elements().len() == 0),
    {
        self.bytes.len == 0
    }

    /// Forgets every element.
    pub fn clear(&mut self)
        requires
            old(self).wf(),
        ensures
            final(self).wf(),
            final(self).elements() == Seq::<Seq<u8>>::empty(),
            final(self).type_info_spec() == old(self).type_info_spec(),
    {
        self.bytes.clear();
    }

    pub fn len(&self) -> (r: usize)
        ensures
            r == self.elements().len(),
    {
        self.bytes.len
    }

    pub fn iter<T>(&self) -> (r: DynVecIterCloneable<'_, T>)
        ensures
            r.position() == 0,
            r.elements() == self.elements(),
            r.wf() == self.wf(),
    {
        DynVecIterCloneable { vec: self, i: 0, _marker: core::marker::PhantomData }
    }
}

/// Walks the element records of a type-erased vector in order.
pub struct DynVecIterCloneable<'a, T> {
    vec: &'a DynVecCloneable,
    i: usize,
    _marker: core::marker::PhantomData<T>,
}

impl<'a, T> DynVecIterCloneable<'a, T> {
    pub closed spec fn position(&self) -> int {
        self.i as int
    }

    pub closed spec fn elements(&self) -> Seq<Seq<u8>> {
        self.vec.elements()
    }

    pub closed spec fn wf(&self) -> bool {
        self.vec.wf()
    }

    pub fn new(vec: &'a DynVecCloneable) -> (r: Self)
        ensures
            r.position() == 0,
            r.elements() == vec.elements(),
            r.wf() == vec.wf(),
    {
        DynVecIterCloneable { vec, i: 0, _marker: core::marker::PhantomData }
    }

    /// The record at the position, which then advances; nothing past the end.
    pub fn next(&mut self) -> (r: Option<&'a [u8]>)
        requires
            old(self).wf(),
            old(self).position() <= old(self).elements().len(),
        ensures
            final(self).elements() == old(self).elements(),
            final(self).wf() == old(self).wf(),
            old(self).position() == old(self).elements().len() ==> r is None && final(self).position() == old(self).position(),
            old(self).position() < old(self).elements().len() ==> r is Some && r.unwrap()@ == old(self).elements()[old(self).position()]
                && final(self).position() == old(self).position() + 1,
    {
        if self.i == self.vec.len() {
            return None;
        }
        let next = self.vec.get_bytes(self.i);
        self.i = self.i + 1;
        Some(next)
    }
}

/// Walks the element indices of a type-erased vector in order, for writing
/// through `write_unchecked`.
pub struct DynVecIterMutCloneable<T> {
    i: usize,
    _marker: core::marker::PhantomData<T>,
}

impl<T> DynVecIterMutCloneable<T> {
    pub closed spec fn position(&self) -> int {
        self.i as int
    }

    pub fn new(vec: &DynVecCloneable) -> (r: Self)
        ensures
            r.position() == 0,
    {
        DynVecIterMutCloneable { i: 0, _marker: core::marker::PhantomData }
    }

    /// The index at the position, which then advances; nothing past the end.
    pub fn next(&mut self, vec: &DynVecCloneable) -> (r: Option<usize>)
        ensures
            old(self).position() >= vec.elements().len() ==> r is None && final(self).position() == old(self).position(),
            old(self).position() < vec.elements().len() ==> r == Some(old(self).position() as usize)
                && final(self).position() == old(self).position() + 1,
    {
        if self.i >= vec.len() {
            return None;
        }
        let i = self.i;
        self.i = self.i + 1;
        Some(i)
    }
}
impl PackedBytes {
    fn copy(&self) -> (r: Self)
        ensures
            r.data@ == self.data@,
            r.elem_size == self.elem_size,
            r.stride == self.stride,
            r.len == self.len,
    {
        PackedBytes { data: self.data.clone(), elem_size: self.elem_size, stride: self.stride, len: self.len }
    }
}

impl Clone for DynVecCloneable {
    /// A copy holding the same records.
    fn clone(&self) -> (r: Self)
        ensures
            r.wf() == self.wf(),
            r.elements() == self.elements(),
            r.type_info_spec() == self.type_info_spec(),
    {
        let r = DynVecCloneable { type_info: self.type_info, bytes: self.bytes.copy() };
        assert(r.elements() =~= self.elements());
        r
    }
}

/// Pushing records one after another onto an empty vector leaves exactly
/// those records, each cut to the size and padded to the stride, in push
/// order; a walk with `iter` gives back the elements in that order.
/// `states` holds the elements after each push, from the empty vector on.
pub proof fn law_push_then_iterate(states: Seq<Seq<Seq<u8>>>, pushed: Seq<Seq<u8>>, size: nat, stride: nat)
    requires
        states.len() == pushed.len() + 1,
        states[0] == Seq::<Seq<u8>>::empty(),
        forall|k: int|
            0 <= k < pushed.len() ==> #[trigger] states[k + 1] == states[k].push(record_of(pushed[k], size, stride)),
    ensures
        states[pushed.len() as int] == pushed.map_values(|b: Seq<u8>| record_of(b, size, stride)),
    decreases pushed.len(),
{
    if pushed.len() > 0 {
        let n = pushed.len() - 1;
        law_push_then_iterate(states.subrange(0, n + 1), pushed.subrange(0, n), size, stride);
        assert(states.subrange(0, n + 1)[n] == states[n]);
        assert(states[n + 1] == states[n].push(record_of(pushed[n], size, stride)));
        assert(pushed.map_values(|b: Seq<u8>| record_of(b, size, stride)) =~= pushed.subrange(0, n).map_values(
            |b: Seq<u8>| record_of(b, size, stride),
        ).push(record_of(pushed[n], size, stride)));
    }
}

} // verus!
