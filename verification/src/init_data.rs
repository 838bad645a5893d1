//! Initializers: their layout, and the copies of their bytes.

use std::sync::Arc;

use vstd::prelude::*;

use crate::engine::{InitData, InitModel};
use crate::ir::{
    byte_size, checked_storage_bytes, element_bytes, is_known_dtype, storage_bytes, ValueId,
};
use crate::snapshot::{
    shot_of, value_dtype, value_shape, well_formed, DimShot, DimensionMetadata, OrtGraphSnapshot,
    ValueShot,
};
use crate::text::{decimal, decimal_text, join2, join3};

verus! {

broadcast use vstd::std_specs::hash::group_hash_axioms;

/// The text of a failure that concerns an initializer.
pub open spec fn initializer_failure(name: Seq<char>, what: Seq<char>) -> Seq<char> {
    "initializer "@ + name + what
}

/// The sizes of static dimensions, or the first dimension that has none.
pub open spec fn static_sizes(name: Seq<char>, dims: Seq<DimShot>) -> Result<Seq<i64>, Seq<char>>
    decreases dims.len(),
{
    if dims.len() == 0 {
        Ok(Seq::empty())
    } else {
        match static_sizes(name, dims.drop_last()) {
            Err(failure) => Err(failure),
            Ok(sizes) => match dims.last() {
                DimShot::Static(size) => if size <= i64::MAX {
                    Ok(sizes.push(size as i64))
                } else {
                    Err(initializer_failure(name, " dimension overflows i64"@))
                },
                DimShot::Symbolic(_) => Err(
                    initializer_failure(name, " has a symbolic dimension"@),
                ),
            },
        }
    }
}

/// The number of elements, unless it or that of a leading part exceeds the machine.
pub open spec fn element_count(sizes: Seq<i64>) -> Option<nat>
    decreases sizes.len(),
{
    if sizes.len() == 0 {
        Some(1)
    } else {
        match element_count(sizes.drop_last()) {
            Some(count) => if 0 <= sizes.last() && sizes.last() <= usize::MAX && count
                * sizes.last() <= usize::MAX {
                Some((count * sizes.last()) as nat)
            } else {
                None
            },
            None => None,
        }
    }
}

/// The layout of an initializer, without its bytes.
pub open spec fn layout_of(value: ValueShot) -> Result<InitModel, Seq<char>> {
    match value_dtype(value) {
        None => Err(initializer_failure(value.name, " has no tensor dtype"@)),
        Some(dtype) => match value_shape(value) {
            None => Err(initializer_failure(value.name, " has no tensor shape"@)),
            Some(dims) => match static_sizes(value.name, dims) {
                Err(failure) => Err(failure),
                Ok(sizes) => match element_count(sizes) {
                    None => Err(initializer_failure(value.name, " element count overflows"@)),
                    Some(count) => Ok(
                        InitModel {
                            shape: sizes,
                            dtype: dtype as u32,
                            count: count as usize,
                            owned: None,
                        },
                    ),
                },
            },
        },
    }
}

fn failure_text(name: &str, what: &str) -> (text: String)
    ensures
        text@ == initializer_failure(name@, what@),
{
    join3("initializer ", name, what)
}

proof fn lemma_sizes_fail(name: Seq<char>, dims: Seq<DimShot>, k: int)
    requires
        0 <= k <= dims.len(),
        static_sizes(name, dims.take(k)) is Err,
    ensures
        static_sizes(name, dims) == static_sizes(name, dims.take(k)),
    decreases dims.len(),
{
    if k < dims.len() {
        assert(dims.drop_last().take(k) =~= dims.take(k));
        lemma_sizes_fail(name, dims.drop_last(), k);
    } else {
        assert(dims.take(k) =~= dims);
    }
}

proof fn lemma_count_fails(sizes: Seq<i64>, k: int)
    requires
        0 <= k <= sizes.len(),
        element_count(sizes.take(k)) is None,
    ensures
        element_count(sizes) is None,
    decreases sizes.len(),
{
    if k < sizes.len() {
        assert(sizes.drop_last().take(k) =~= sizes.take(k));
        lemma_count_fails(sizes.drop_last(), k);
    } else {
        assert(sizes.take(k) =~= sizes);
    }
}

fn read_sizes(name: &str, dims: &Vec<DimensionMetadata>) -> (sizes: Result<Vec<i64>, String>)
    ensures
        match sizes {
            Ok(list) => static_sizes(name@, crate::snapshot::dim_shots(dims@)) == Ok::<
                Seq<i64>,
                Seq<char>,
            >(list@),
            Err(failure) => static_sizes(name@, crate::snapshot::dim_shots(dims@)) == Err::<
                Seq<i64>,
                Seq<char>,
            >(failure@),
        },
{
    let ghost shots = crate::snapshot::dim_shots(dims@);
    let mut list: Vec<i64> = Vec::new();
    proof {
        assert(shots.take(0) =~= Seq::<DimShot>::empty());
        assert(list@ =~= Seq::<i64>::empty());
    }
    while list.len() < dims.len()
        invariant
            list@.len() <= dims@.len(),
            shots == crate::snapshot::dim_shots(dims@),
            static_sizes(name@, shots.take(list@.len() as int)) == Ok::<Seq<i64>, Seq<char>>(list@),
        decreases dims@.len() - list@.len(),
    {
        let at: usize = list.len();
        proof {
            assert(shots.take(at + 1).drop_last() =~= shots.take(at as int));
            assert(shots.take(at + 1).last() == dims@[at as int]@);
        }
        match &dims[at] {
            DimensionMetadata::Static(size) => {
                if *size as u64 <= 0x7fff_ffff_ffff_ffffu64 {
                    list.push(*size as i64);
                } else {
                    proof {
                        lemma_sizes_fail(name@, shots, at + 1);
                    }
                    return Err(failure_text(name, " dimension overflows i64"));
                }
            },
            DimensionMetadata::Symbolic(_) => {
                proof {
                    lemma_sizes_fail(name@, shots, at + 1);
                }
                return Err(failure_text(name, " has a symbolic dimension"));
            },
        }
    }
    proof {
        assert(shots.take(list@.len() as int) =~= shots);
    }
    Ok(list)
}

fn count_elements(sizes: &Vec<i64>) -> (count: Option<usize>)
    ensures
        match count {
            Some(total) => element_count(sizes@) == Some(total as nat),
            None => element_count(sizes@) is None,
        },
{
    let mut total: usize = 1;
    let mut at: usize = 0;
    proof {
        assert(sizes@.take(0) =~= Seq::<i64>::empty());
    }
    while at < sizes.len()
        invariant
            at <= sizes@.len(),
            element_count(sizes@.take(at as int)) == Some(total as nat),
        decreases sizes@.len() - at,
    {
        let size: i64 = sizes[at];
        proof {
            assert(sizes@.take(at + 1).drop_last() =~= sizes@.take(at as int));
            assert(sizes@.take(at + 1).last() == size);
        }
        if size < 0 || size as u64 > usize::MAX as u64 {
            proof {
                lemma_count_fails(sizes@, at + 1);
            }
            return None;
        }
        match total.checked_mul(size as usize) {
            None => {
                proof {
                    lemma_count_fails(sizes@, at + 1);
                }
                return None;
            },
            Some(product) => {
                total = product;
            },
        }
        at = at + 1;
    }
    proof {
        assert(sizes@.take(at as int) =~= sizes@);
    }
    Some(total)
}

/// The layout of an initializer of the snapshot, before its bytes are copied.
pub fn snapshot_initializer_data(
    snapshot: &OrtGraphSnapshot,
    value: ValueId,
) -> (layout: Result<InitData, String>)
    requires
        well_formed(*snapshot),
        snapshot.initializers@.contains_key(value),
    ensures
        match layout {
            Ok(init) => layout_of(shot_of(*snapshot).values[value as int]) == Ok::<
                InitModel,
                Seq<char>,
            >(init@),
            Err(failure) => layout_of(shot_of(*snapshot).values[value as int]) == Err::<
                InitModel,
                Seq<char>,
            >(failure@),
        },
{
    let ghost model = shot_of(*snapshot).values[value as int];
    let name: &str = snapshot.values[value as usize].name.as_str();
    match snapshot.initializers.get(&value) {
        None => Err(String::new()),
        Some(metadata) => match metadata.dtype {
            None => Err(failure_text(name, " has no tensor dtype")),
            Some(dtype) => match &metadata.shape {
                None => Err(failure_text(name, " has no tensor shape")),
                Some(dims) => match read_sizes(name, dims) {
                    Err(failure) => Err(failure),
                    Ok(shape) => match count_elements(&shape) {
                        None => Err(failure_text(name, " element count overflows")),
                        Some(count) => {
                            let init = InitData { shape, dtype: dtype as u32, count, owned: None };
                            Ok(init)
                        },
                    },
                },
            },
        },
    }
}

/// The initializer with its bytes: those of `data` that the layout asks for. Nothing is copied for
/// a null handle, or where the bytes are there already.
pub open spec fn owned_of(
    source: InitModel,
    data: Option<Seq<u8>>,
) -> Result<InitModel, Seq<char>> {
    if source.owned is Some || data is None {
        Ok(source)
    } else if !(1 <= source.dtype <= 26) {
        Err("initializer has unsupported dtype "@ + decimal(source.dtype as nat))
    } else {
        let bytes = storage_bytes(source.dtype as i32, source.count as nat);
        if bytes > usize::MAX {
            Err("initializer byte count overflows"@)
        } else {
            Ok(
                InitModel {
                    owned: Some(
                        data->0.take(
                            if bytes <= data->0.len() {
                                bytes as int
                            } else {
                                data->0.len() as int
                            },
                        ),
                    ),
                    ..source
                },
            )
        }
    }
}

/// The bytes behind an optional handle.
pub open spec fn data_view(data: Option<Arc<Vec<u8>>>) -> Option<Seq<u8>> {
    match data {
        Some(bytes) => Some(bytes@),
        None => None,
    }
}

/// How many bytes an initializer of this layout takes.
pub fn initializer_byte_count(layout: &InitData) -> (bytes: Result<usize, String>)
    ensures
        match bytes {
            Ok(total) => 1 <= layout.dtype <= 26 && total == storage_bytes(
                layout.dtype as i32,
                layout.count as nat,
            ),
            Err(failure) => if !(1 <= layout.dtype <= 26) {
                failure@ == "initializer has unsupported dtype "@ + decimal(layout.dtype as nat)
            } else {
                failure@ == "initializer byte count overflows"@ && storage_bytes(
                    layout.dtype as i32,
                    layout.count as nat,
                ) > usize::MAX
            },
        },
{
    if layout.dtype > 0x7fff_ffff || !is_known_dtype(layout.dtype as i32) {
        return Err(
            join2(
                "initializer has unsupported dtype ",
                decimal_text(layout.dtype as u64).as_str(),
            ),
        );
    }
    match checked_storage_bytes(layout.dtype as i32, layout.count) {
        None => Err("initializer byte count overflows".to_owned()),
        Some(total) => Ok(total),
    }
}

/// Gives an initializer bytes of its own.
pub fn own_init_data(
    source: &InitData,
    data: &Option<Arc<Vec<u8>>>,
) -> (copy: Result<InitData, String>)
    ensures
        match copy {
            Ok(init) => owned_of(source@, data_view(*data)) == Ok::<InitModel, Seq<char>>(init@),
            Err(failure) => owned_of(source@, data_view(*data)) == Err::<InitModel, Seq<char>>(
                failure@,
            ),
        },
{
    let ghost all = data_view(*data);
    match data {
        None => Ok(source.share()),
        Some(bytes) => {
            if source.owned.is_some() {
                return Ok(source.share());
            }
            let total: usize = match initializer_byte_count(source) {
                Err(failure) => {
                    return Err(failure);
                },
                Ok(total) => total,
            };
            let shape: Vec<i64> = source.shape.clone();
            let owned: Arc<Vec<u8>> = if bytes.len() <= total {
                bytes.clone()
            } else {
                let mut part: Vec<u8> = Vec::new();
                while part.len() < total
                    invariant
                        part@.len() <= total < bytes@.len(),
                        part@ == bytes@.take(part@.len() as int),
                    decreases total - part@.len(),
                {
                    let at: usize = part.len();
                    part.push(bytes[at]);
                    proof {
                        assert(bytes@.take(at + 1) =~= bytes@.take(at as int).push(
                            bytes@[at as int],
                        ));
                    }
                }
                Arc::new(part)
            };
            proof {
                assert(shape@ =~= source.shape@);
                assert(bytes@.take(bytes@.len() as int) =~= bytes@);
            }
            Ok(
                InitData {
                    shape,
                    dtype: source.dtype,
                    count: source.count,
                    owned: Some(owned),
                },
            )
        },
    }
}

/// How many bytes to copy for a constant tensor attribute, where it can be kept: elements must have
/// a fixed width of whole bytes.
pub fn tensor_attribute_bytes(dtype: u32, count: usize) -> (bytes: Option<usize>)
    ensures
        match bytes {
            Some(total) => 1 <= dtype <= 26 && element_bytes(dtype as i32) > 0 && total == count
                * element_bytes(dtype as i32),
            None => !(1 <= dtype <= 26) || element_bytes(dtype as i32) == 0 || count
                * element_bytes(dtype as i32) > usize::MAX,
        },
{
    if dtype > 0x7fff_ffff {
        return None;
    }
    let width: usize = byte_size(dtype as i32);
    if width == 0 {
        return None;
    }
    count.checked_mul(width)
}

} // verus!
