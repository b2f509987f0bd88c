//! Shader kinds, the table of shader sources that an exported project carries, and the include
//! handler that hands those sources to the shader compiler.
use vstd::prelude::*;
use crate::binary_writer::{le_bytes_u32, CopyWritable, Writable};
use crate::deserializer::stream::{decode_seq, encode_seq, lemma_decode_encode_seq, lemma_encode_seq_len, Stream};

verus! {

/// The pipeline stage a shader is compiled for.
#[derive(Debug, Clone, Copy, PartialEq, Eq, Structural)]
pub enum ShaderType {
    Vertex,
    Geometry,
    Pixel,
    Hull,
    Domain,
    Compute,
}

/// The byte that stands for a shader type in an exported table.
pub open spec fn shader_type_byte(t: ShaderType) -> u8 {
    match t {
        ShaderType::Vertex => 0,
        ShaderType::Geometry => 1,
        ShaderType::Pixel => 2,
        ShaderType::Hull => 3,
        ShaderType::Domain => 4,
        ShaderType::Compute => 5,
    }
}

/// The shader type that a byte of an exported table stands for.
pub open spec fn shader_type_of_byte(b: u8) -> Option<ShaderType> {
    if b == 0 {
        Some(ShaderType::Vertex)
    } else if b == 1 {
        Some(ShaderType::Geometry)
    } else if b == 2 {
        Some(ShaderType::Pixel)
    } else if b == 3 {
        Some(ShaderType::Hull)
    } else if b == 4 {
        Some(ShaderType::Domain)
    } else if b == 5 {
        Some(ShaderType::Compute)
    } else {
        None
    }
}

/// The compiler target profile of a shader type, as a nul-terminated string.
pub open spec fn target_name(t: ShaderType) -> Seq<char> {
    match t {
        ShaderType::Vertex => "vs_5_0\0"@,
        ShaderType::Geometry => "gs_5_0\0"@,
        ShaderType::Pixel => "ps_5_0\0"@,
        ShaderType::Hull => "hs_5_0\0"@,
        ShaderType::Domain => "ds_5_0\0"@,
        ShaderType::Compute => "cs_5_0\0"@,
    }
}

/// The compiler target profile of `shader_type` (shader model 5), nul-terminated.
pub fn get_target_name(shader_type: ShaderType) -> (name: &'static str)
    ensures
        name@ == target_name(shader_type),
{
    match shader_type {
        ShaderType::Vertex => "vs_5_0\0",
        ShaderType::Geometry => "gs_5_0\0",
        ShaderType::Pixel => "ps_5_0\0",
        ShaderType::Hull => "hs_5_0\0",
        ShaderType::Domain => "ds_5_0\0",
        ShaderType::Compute => "cs_5_0\0",
    }
}

impl ShaderType {
    /// The byte that stands for this type in an exported table.
    pub fn to_byte(self) -> (b: u8)
        ensures
            b == shader_type_byte(self),
    {
        match self {
            ShaderType::Vertex => 0,
            ShaderType::Geometry => 1,
            ShaderType::Pixel => 2,
            ShaderType::Hull => 3,
            ShaderType::Domain => 4,
            ShaderType::Compute => 5,
        }
    }

    /// The type that `b` stands for in an exported table, if any.
    pub fn from_byte(b: u8) -> (t: Option<ShaderType>)
        ensures
            t == shader_type_of_byte(b),
    {
        if b == 0 {
            Some(ShaderType::Vertex)
        } else if b == 1 {
            Some(ShaderType::Geometry)
        } else if b == 2 {
            Some(ShaderType::Pixel)
        } else if b == 3 {
            Some(ShaderType::Hull)
        } else if b == 4 {
            Some(ShaderType::Domain)
        } else if b == 5 {
            Some(ShaderType::Compute)
        } else {
            None
        }
    }
}

pub proof fn lemma_shader_type_byte(t: ShaderType)
    ensures
        shader_type_of_byte(shader_type_byte(t)) == Some(t),
{
}

pub proof fn lemma_byte_names_type(b: u8)
    ensures
        shader_type_of_byte(b) matches Some(t) ==> shader_type_byte(t) == b,
{
}

/// Hands the compiler the source of each included shader once: an include names a shader by
/// its index in `strings`, and a shader already visited is included as empty text.
pub struct IncludeDispatcher<'strings> {
    pub strings: &'strings [&'strings [u8]],
    pub visited_indices: Vec<usize>,
}

impl<'strings> IncludeDispatcher<'strings> {
    /// A handler for compiling the shader `base_index` of `strings`.
    pub fn new(strings: &'strings [&'strings [u8]], base_index: usize) -> (d: Self)
        ensures
            d.strings == strings,
            d.visited_indices@ == seq![base_index],
    {
        IncludeDispatcher { strings, visited_indices: vec![base_index] }
    }

    /// The text to include for shader `shader_index`: `None` (empty text) when it was visited
    /// before, else its source. Either way it counts as visited afterwards.
    pub fn open_index(&mut self, shader_index: usize) -> (data: Option<&'strings [u8]>)
        requires
            old(self).visited_indices@.contains(shader_index) || shader_index < old(
                self,
            ).strings@.len(),
        ensures
            final(self).strings == old(self).strings,
            final(self).visited_indices@ == old(self).visited_indices@.push(shader_index),
            data == (if old(self).visited_indices@.contains(shader_index) {
                None
            } else {
                Some(old(self).strings@[shader_index as int])
            }),
    {
        let n = self.visited_indices.len();
        let mut seen = false;
        let mut i: usize = 0;
        while i < n
            invariant
                n == self.visited_indices@.len(),
                i <= n,
                seen == (exists|j: int| 0 <= j < i && self.visited_indices@[j] == shader_index),
            decreases n - i,
        {
            if self.visited_indices[i] == shader_index {
                seen = true;
            }
            i = i + 1;
        }
        proof {
            if seen {
                let j = choose|j: int| 0 <= j < n && self.visited_indices@[j] == shader_index;
                assert(self.visited_indices@.contains(shader_index));
            } else {
                assert(!self.visited_indices@.contains(shader_index));
            }
        }
        let data = if seen {
            None
        } else {
            Some(self.strings[shader_index])
        };
        self.visited_indices.push(shader_index);
        data
    }
}

/// The player's compiled shaders, handed out in the order the project asks for them: each
/// request takes the shader of the next creation index.
pub struct ShaderManager<'shaders, S> {
    pub shaders: &'shaders [S],
    pub entry_points: &'shaders [u8],
}

impl<'shaders, S> ShaderManager<'shaders, S> {
    pub fn new(shaders: &'shaders [S], entry_points: &'shaders [u8]) -> (m: Self)
        ensures
            m.shaders == shaders,
            m.entry_points == entry_points,
    {
        ShaderManager { shaders, entry_points }
    }

    /// The key of the shader for the next request (the path names the shader in the editor;
    /// the player goes by order alone).
    pub fn load_shader(&mut self, _path: &str) -> (key: usize)
        requires
            old(self).entry_points@.len() > 0,
        ensures
            key == old(self).entry_points@[0],
            final(self).entry_points@ == old(self).entry_points@.skip(1),
            final(self).shaders == old(self).shaders,
    {
        let shader_index = self.entry_points[0] as usize;
        let n = self.entry_points.len();
        self.entry_points = vstd::slice::slice_subrange(self.entry_points, 1, n);
        shader_index
    }

    /// The shader of `key`.
    pub fn get_shader(&self, key: usize) -> (s: Option<&'shaders S>)
        requires
            key < self.shaders@.len(),
        ensures
            s == Some(&self.shaders@[key as int]),
    {
        Some(&self.shaders[key])
    }
}

/// The shader loads of a project as (type, path) pairs.
pub open spec fn journal_view(journal: Seq<(ShaderType, String)>) -> Seq<(ShaderType, Seq<char>)> {
    journal.map_values(|e: (ShaderType, String)| (e.0, e.1@))
}

/// The distinct loads among the first `n` of `j`, in the order in which each first occurs: the
/// entry points of an exported project.
pub open spec fn first_loads(j: Seq<(ShaderType, Seq<char>)>, n: int) -> Seq<(ShaderType, Seq<char>)>
    decreases n,
{
    if n <= 0 {
        Seq::empty()
    } else {
        let f = first_loads(j, n - 1);
        if f.contains(j[n - 1]) {
            f
        } else {
            f.push(j[n - 1])
        }
    }
}

/// The distinct loads of a shorter prefix begin those of a longer one.
proof fn lemma_first_loads_prefix(j: Seq<(ShaderType, Seq<char>)>, i: int, n: int)
    requires
        0 <= i <= n <= j.len(),
    ensures
        first_loads(j, i).len() <= first_loads(j, n).len(),
        first_loads(j, n).subrange(0, first_loads(j, i).len() as int) == first_loads(j, i),
    decreases n - i,
{
    if i < n {
        lemma_first_loads_prefix(j, i, n - 1);
        let a = first_loads(j, i);
        let b = first_loads(j, n - 1);
        let c = first_loads(j, n);
        assert(c.subrange(0, a.len() as int) =~= b.subrange(0, a.len() as int));
    } else {
        assert(first_loads(j, n).subrange(0, first_loads(j, n).len() as int) =~= first_loads(j, n));
    }
}

/// Every load of the first `n` is among their distinct loads.
proof fn lemma_first_loads_contains(j: Seq<(ShaderType, Seq<char>)>, n: int, p: int)
    requires
        0 <= p < n <= j.len(),
    ensures
        first_loads(j, n).contains(j[p]),
    decreases n,
{
    if p < n - 1 {
        lemma_first_loads_contains(j, n - 1, p);
        let f = first_loads(j, n - 1);
        let i = choose|i: int| 0 <= i < f.len() && f[i] == j[p];
        if !f.contains(j[n - 1]) {
            assert(f.push(j[n - 1])[i] == j[p]);
        }
    } else {
        let f = first_loads(j, n - 1);
        if !f.contains(j[n - 1]) {
            assert(f.push(j[n - 1])[f.len() as int] == j[p]);
        }
    }
}

/// Two loads of the same shader type and path.
fn same_load(a: &(ShaderType, String), b: &(ShaderType, String)) -> (r: bool)
    ensures
        r == ((a.0, a.1@) == (b.0, b.1@)),
{
    a.0 == b.0 && crate::param_types::same_text(a.1.as_str(), b.1.as_str())
}

/// Numbers the entry points of a project's journal of shader loads (type and path of each load,
/// in order): each distinct load is an entry point, numbered in the order in which it first
/// occurs (see `first_loads`). Returns, for each load, the number of its entry point (the
/// creation index that the exported table holds), and for each entry point the journal position
/// where it first occurs (whose shader is the one to export). At most 256 entry points can be
/// numbered.
pub fn number_entry_points(journal: &[(ShaderType, String)]) -> (r: (Vec<u8>, Vec<usize>))
    requires
        first_loads(journal_view(journal@), journal@.len() as int).len() <= 256,
    ensures
        ({
            let j = journal_view(journal@);
            let f = first_loads(j, j.len() as int);
            &&& r.0@.len() == j.len()
            &&& forall|i: int| 0 <= i < j.len() ==> (#[trigger] r.0@[i]) < f.len() && f[r.0@[i] as int] == j[i]
            &&& r.1@.len() == f.len()
            &&& forall|m: int|
                0 <= m < f.len() ==> (#[trigger] r.1@[m]) < j.len() && j[r.1@[m] as int] == f[m] && forall|p: int|
                    0 <= p < r.1@[m] ==> j[p] != f[m]
        }),
{
    let ghost j = journal_view(journal@);
    let ghost total = first_loads(j, j.len() as int);
    let n = journal.len();
    let mut creation: Vec<u8> = Vec::new();
    let mut firsts: Vec<usize> = Vec::new();
    let mut i: usize = 0;
    while i < n
        invariant
            n == j.len(),
            j == journal_view(journal@),
            total == first_loads(j, n as int),
            total.len() <= 256,
            i <= n,
            creation@.len() == i,
            firsts@.len() == first_loads(j, i as int).len(),
            forall|q: int| 0 <= q < i ==> (#[trigger] creation@[q]) < total.len() && total[creation@[q] as int] == j[q],
            forall|m: int|
                0 <= m < firsts@.len() ==> (#[trigger] firsts@[m]) < i && j[firsts@[m] as int] == first_loads(
                    j,
                    i as int,
                )[m] && forall|p: int| 0 <= p < firsts@[m] ==> j[p] != first_loads(j, i as int)[m],
        decreases n - i,
    {
        let ghost f = first_loads(j, i as int);
        proof {
            lemma_first_loads_prefix(j, i as int, i + 1);
            lemma_first_loads_prefix(j, i + 1, n as int);
            lemma_first_loads_prefix(j, i as int, n as int);
            assert(j[i as int] == (journal@[i as int].0, journal@[i as int].1@));
        }
        let mut m: usize = 0;
        let mut found = false;
        while m < firsts.len()
            invariant_except_break
                !found,
            invariant
                m <= firsts@.len(),
                firsts@.len() == f.len(),
                i < n,
                n == j.len(),
                j == journal_view(journal@),
                forall|mm: int|
                    0 <= mm < firsts@.len() ==> (#[trigger] firsts@[mm]) < i && j[firsts@[mm] as int] == f[mm],
                forall|mm: int| 0 <= mm < m ==> f[mm] != j[i as int],
            ensures
                found ==> m < f.len() && f[m as int] == j[i as int],
                !found ==> forall|mm: int| 0 <= mm < f.len() ==> f[mm] != j[i as int],
            decreases firsts@.len() - m,
        {
            let q = firsts[m];
            proof {
                assert(j[q as int] == (journal@[q as int].0, journal@[q as int].1@));
            }
            if same_load(&journal[q], &journal[i]) {
                found = true;
                break;
            }
            m = m + 1;
        }
        if found {
            proof {
                assert(f.contains(j[i as int]));
                assert(first_loads(j, i + 1) == f);
                assert(total.subrange(0, f.len() as int) == f);
                assert(total.subrange(0, f.len() as int)[m as int] == total[m as int]);
                assert(total[m as int] == f[m as int]);
            }
            creation.push(m as u8);
        } else {
            proof {
                assert(!f.contains(j[i as int]));
                assert(first_loads(j, i + 1) == f.push(j[i as int]));
                assert(total.subrange(0, f.len() + 1 as int) == f.push(j[i as int]));
                assert(total.subrange(0, f.len() + 1 as int)[f.len() as int] == total[f.len() as int]);
                assert(f.push(j[i as int])[f.len() as int] == j[i as int]);
                assert(total[f.len() as int] == j[i as int]);
                assert forall|p: int| 0 <= p < i implies j[p] != j[i as int] by {
                    lemma_first_loads_contains(j, i as int, p);
                }
            }
            let next = firsts.len();
            firsts.push(i);
            creation.push(next as u8);
        }
        i = i + 1;
    }
    (creation, firsts)
}

/// The bytes of the type column of a shader table.
pub open spec fn types_bytes(ts: Seq<ShaderType>) -> Seq<u8> {
    ts.map_values(|t: ShaderType| shader_type_byte(t))
}

/// The lengths of some strings, as the 32-bit words a shader table stores them in.
pub open spec fn string_lengths(ss: Seq<Seq<u8>>) -> Seq<u32> {
    ss.map_values(|s: Seq<u8>| s.len() as u32)
}

/// Some strings, back to back.
pub open spec fn concat(ss: Seq<Seq<u8>>) -> Seq<u8>
    decreases ss.len(),
{
    if ss.len() == 0 {
        Seq::empty()
    } else {
        ss[0] + concat(ss.drop_first())
    }
}

/// A column of bytes with its 32-bit byte count in front.
pub open spec fn column_bytes(col: Seq<u8>) -> Seq<u8> {
    le_bytes_u32(col.len() as u32) + col
}

/// `bytes` starts with a column whose byte count fits its field.
pub open spec fn starts_with_column(bytes: Seq<u8>) -> bool {
    exists|col: Seq<u8>, rest: Seq<u8>|
        col.len() <= u32::MAX && bytes == #[trigger] (column_bytes(col) + rest)
}

/// The string count of a shader table, then the strings' 32-bit lengths.
pub open spec fn lengths_bytes(lens: Seq<u32>) -> Seq<u8> {
    seq![lens.len() as u8] + encode_seq(lens)
}

/// The exported form of a shader table: the creation indices, the entry points' types and
/// source indices (each a column with a 32-bit byte count in front), then the number of
/// source strings, their 32-bit lengths and the strings themselves.
pub open spec fn shader_table_bytes(
    creation_indices: Seq<u8>,
    entry_point_types: Seq<ShaderType>,
    entry_point_indices: Seq<u8>,
    strings: Seq<Seq<u8>>,
) -> Seq<u8> {
    column_bytes(creation_indices) + column_bytes(types_bytes(entry_point_types)) + column_bytes(
        entry_point_indices,
    ) + lengths_bytes(string_lengths(strings)) + concat(strings)
}

pub proof fn lemma_table_bytes_split(
    c: Seq<u8>,
    t: Seq<ShaderType>,
    i: Seq<u8>,
    s: Seq<Seq<u8>>,
    rest: Seq<u8>,
)
    ensures
        shader_table_bytes(c, t, i, s) + rest == column_bytes(c) + (column_bytes(types_bytes(t)) + (
        column_bytes(i) + (lengths_bytes(string_lengths(s)) + (concat(s) + rest)))),
{
    assert(shader_table_bytes(c, t, i, s) + rest =~= column_bytes(c) + (column_bytes(types_bytes(t))
        + (column_bytes(i) + (lengths_bytes(string_lengths(s)) + (concat(s) + rest)))));
}

/// A shader table whose counts and lengths fit the fields that store them.
pub open spec fn table_fits(
    creation_indices: Seq<u8>,
    entry_point_types: Seq<ShaderType>,
    entry_point_indices: Seq<u8>,
    strings: Seq<Seq<u8>>,
) -> bool {
    &&& creation_indices.len() <= u32::MAX
    &&& entry_point_types.len() <= u32::MAX
    &&& entry_point_indices.len() <= u32::MAX
    &&& strings.len() <= u8::MAX
    &&& forall|k: int| 0 <= k < strings.len() ==> #[trigger] strings[k].len() <= u32::MAX
}

/// The shader table of an exported project, read back: which entry point each shader creation
/// uses, each entry point's type and the index of its source, and the source strings.
pub struct ShaderTable<'bytes> {
    pub creation_indices: Vec<u8>,
    pub entry_point_types: Vec<ShaderType>,
    pub entry_point_indices: Vec<u8>,
    pub strings: Vec<&'bytes [u8]>,
}

/// The contents of some byte slices.
pub open spec fn slices_view(ss: Seq<&[u8]>) -> Seq<Seq<u8>> {
    ss.map_values(|s: &[u8]| s@)
}

impl<'bytes> ShaderTable<'bytes> {
    /// The exported form of this table.
    pub open spec fn bytes(&self) -> Seq<u8> {
        shader_table_bytes(
            self.creation_indices@,
            self.entry_point_types@,
            self.entry_point_indices@,
            slices_view(self.strings@),
        )
    }

    pub open spec fn fits(&self) -> bool {
        table_fits(
            self.creation_indices@,
            self.entry_point_types@,
            self.entry_point_indices@,
            slices_view(self.strings@),
        )
    }
}

/// `bytes` starts with the exported form of a shader table whose counts fit their fields.
pub open spec fn starts_with_table(bytes: Seq<u8>) -> bool {
    exists|c: Seq<u8>, t: Seq<ShaderType>, i: Seq<u8>, s: Seq<Seq<u8>>, rest: Seq<u8>|
        table_fits(c, t, i, s) && bytes == #[trigger] (shader_table_bytes(c, t, i, s) + rest)
}

/// Appends the exported form of a shader table to `buffer`: the final step of exporting the
/// project's shaders.
pub fn write_shader_table(
    buffer: &mut Vec<u8>,
    creation_indices: &Vec<u8>,
    entry_point_types: &Vec<ShaderType>,
    entry_point_indices: &Vec<u8>,
    strings: &Vec<Vec<u8>>,
)
    ensures
        final(buffer)@ == old(buffer)@ + shader_table_bytes(
            creation_indices@,
            entry_point_types@,
            entry_point_indices@,
            strings@.map_values(|s: Vec<u8>| s@),
        ),
{
    let ghost ss = strings@.map_values(|s: Vec<u8>| s@);
    let ghost start = buffer@;
    crate::binary_writer::write(buffer, creation_indices.len() as u32);
    extend(buffer, creation_indices);
    crate::binary_writer::write(buffer, entry_point_types.len() as u32);
    let mut k: usize = 0;
    let ghost mid = buffer@;
    while k < entry_point_types.len()
        invariant
            k <= entry_point_types@.len(),
            buffer@ == mid + types_bytes(entry_point_types@.take(k as int)),
        decreases entry_point_types@.len() - k,
    {
        crate::binary_writer::write(buffer, entry_point_types[k].to_byte());
        proof {
            assert(types_bytes(entry_point_types@.take(k + 1)) =~= types_bytes(
                entry_point_types@.take(k as int),
            ).push(shader_type_byte(entry_point_types@[k as int])));
        }
        k = k + 1;
    }
    assert(entry_point_types@.take(k as int) =~= entry_point_types@);
    crate::binary_writer::write(buffer, entry_point_indices.len() as u32);
    extend(buffer, entry_point_indices);
    crate::binary_writer::write(buffer, strings.len() as u8);
    let ghost before_lengths = buffer@;
    let mut k: usize = 0;
    while k < strings.len()
        invariant
            k <= strings@.len(),
            ss == strings@.map_values(|s: Vec<u8>| s@),
            buffer@ == before_lengths + encode_seq(string_lengths(ss.take(k as int))),
        decreases strings@.len() - k,
    {
        crate::binary_writer::write(buffer, strings[k].len() as u32);
        proof {
            lemma_encode_seq_push(string_lengths(ss.take(k as int)), strings@[k as int]@.len() as u32);
            assert(string_lengths(ss.take(k + 1)) =~= string_lengths(ss.take(k as int)).push(
                strings@[k as int]@.len() as u32,
            ));
        }
        k = k + 1;
    }
    assert(ss.take(k as int) =~= ss);
    let ghost before_strings = buffer@;
    let mut k: usize = 0;
    while k < strings.len()
        invariant
            k <= strings@.len(),
            ss == strings@.map_values(|s: Vec<u8>| s@),
            buffer@ == before_strings + concat(ss.take(k as int)),
        decreases strings@.len() - k,
    {
        extend(buffer, &strings[k]);
        proof {
            lemma_concat_push(ss.take(k as int), strings@[k as int]@);
            assert(ss.take(k + 1) =~= ss.take(k as int).push(strings@[k as int]@));
        }
        k = k + 1;
    }
    assert(ss.take(k as int) =~= ss);
    assert(buffer@ =~= start + shader_table_bytes(
        creation_indices@,
        entry_point_types@,
        entry_point_indices@,
        ss,
    ));
}

/// Appends the bytes of `bytes` to `buffer`.
fn extend(buffer: &mut Vec<u8>, bytes: &Vec<u8>)
    ensures
        final(buffer)@ == old(buffer)@ + bytes@,
{
    let mut k: usize = 0;
    while k < bytes.len()
        invariant
            k <= bytes@.len(),
            buffer@ == old(buffer)@ + bytes@.take(k as int),
        decreases bytes@.len() - k,
    {
        buffer.push(bytes[k]);
        assert(bytes@.take(k + 1) =~= bytes@.take(k as int).push(bytes@[k as int]));
        k = k + 1;
    }
    assert(bytes@.take(k as int) =~= bytes@);
}

pub proof fn lemma_encode_seq_push<T: CopyWritable>(vals: Seq<T>, v: T)
    ensures
        encode_seq(vals.push(v)) == encode_seq(vals) + v.encoding(),
    decreases vals.len(),
{
    if vals.len() == 0 {
        assert(vals.push(v).drop_first() =~= Seq::<T>::empty());
        assert(encode_seq(Seq::<T>::empty()) =~= Seq::<u8>::empty());
        assert(vals.push(v)[0] == v);
        assert(encode_seq(vals.push(v)) =~= v.encoding());
    } else {
        lemma_encode_seq_push(vals.drop_first(), v);
        assert(vals.push(v).drop_first() =~= vals.drop_first().push(v));
        assert(encode_seq(vals.push(v)) =~= encode_seq(vals) + v.encoding());
    }
}

pub proof fn lemma_concat_push(ss: Seq<Seq<u8>>, s: Seq<u8>)
    ensures
        concat(ss.push(s)) == concat(ss) + s,
    decreases ss.len(),
{
    if ss.len() == 0 {
        assert(ss.push(s).drop_first() =~= Seq::<Seq<u8>>::empty());
        assert(concat(Seq::<Seq<u8>>::empty()) =~= Seq::<u8>::empty());
        assert(ss.push(s)[0] == s);
        assert(concat(ss.push(s)) =~= s);
    } else {
        lemma_concat_push(ss.drop_first(), s);
        assert(ss.push(s).drop_first() =~= ss.drop_first().push(s));
        assert(concat(ss.push(s)) =~= concat(ss) + s);
    }
}

/// A column is read back as it was written: its byte count says where it ends.
pub proof fn lemma_column_unique(a: Seq<u8>, ra: Seq<u8>, b: Seq<u8>, rb: Seq<u8>)
    requires
        a.len() <= u32::MAX,
        b.len() <= u32::MAX,
        column_bytes(a) + ra == column_bytes(b) + rb,
    ensures
        a == b,
        ra == rb,
{
    let x = column_bytes(a) + ra;
    let y = column_bytes(b) + rb;
    crate::binary_writer::lemma_le_u32_roundtrip(a.len() as u32);
    crate::binary_writer::lemma_le_u32_roundtrip(b.len() as u32);
    assert(x.take(4) =~= le_bytes_u32(a.len() as u32));
    assert(y.take(4) =~= le_bytes_u32(b.len() as u32));
    assert(a.len() == b.len());
    assert(x.subrange(4, 4 + a.len() as int) =~= a);
    assert(y.subrange(4, 4 + b.len() as int) =~= b);
    assert(x.skip(4 + a.len() as int) =~= ra);
    assert(y.skip(4 + b.len() as int) =~= rb);
}

/// Reads a column: a 32-bit byte count, then that many bytes. Nothing is consumed when the
/// stream does not start with a whole column.
fn read_column<'bytes>(s: &mut Stream<'bytes>) -> (col: Option<&'bytes [u8]>)
    ensures
        match col {
            Some(c) => c@.len() <= u32::MAX && old(s)@ == column_bytes(c@) + final(s)@,
            None => final(s)@ == old(s)@ && !starts_with_column(old(s)@),
        },
{
    let ghost b = s@;
    if s.len() < 4 {
        proof {
            if starts_with_column(b) {
                let (c, r) = choose|c: Seq<u8>, r: Seq<u8>|
                    c.len() <= u32::MAX && b == #[trigger] (column_bytes(c) + r);
                assert(b.len() >= 4);
            }
        }
        return None;
    }
    let mut rest = Stream::new(s.as_slice());
    let size = rest.read_u32();
    if rest.len() < size as usize {
        proof {
            if starts_with_column(b) {
                let (c, r) = choose|c: Seq<u8>, r: Seq<u8>|
                    c.len() <= u32::MAX && b == #[trigger] (column_bytes(c) + r);
                crate::binary_writer::lemma_le_u32_roundtrip(c.len() as u32);
                assert(b.take(4) =~= le_bytes_u32(c.len() as u32));
                assert(size == c.len());
            }
        }
        return None;
    }
    let col = rest.substream(size as usize).as_slice();
    proof {
        lemma_u32_encode_decode(b.take(4));
        assert(b.take(4) =~= le_bytes_u32(size));
        assert(b =~= column_bytes(col@) + rest@);
    }
    *s = rest;
    Some(col)
}

/// Sum of some lengths.
pub open spec fn total_len(lens: Seq<u32>) -> int
    decreases lens.len(),
{
    if lens.len() == 0 {
        0
    } else {
        lens[0] + total_len(lens.drop_first())
    }
}

pub proof fn lemma_concat_len(ss: Seq<Seq<u8>>)
    requires
        forall|k: int| 0 <= k < ss.len() ==> #[trigger] ss[k].len() <= u32::MAX,
    ensures
        concat(ss).len() == total_len(string_lengths(ss)),
    decreases ss.len(),
{
    if ss.len() > 0 {
        assert(string_lengths(ss).drop_first() =~= string_lengths(ss.drop_first()));
        assert(ss[0].len() <= u32::MAX);
        lemma_concat_len(ss.drop_first());
    }
}

/// Strings of the same lengths, back to back, are read back as they were written.
pub proof fn lemma_concat_unique(a: Seq<Seq<u8>>, ra: Seq<u8>, b: Seq<Seq<u8>>, rb: Seq<u8>)
    requires
        a.len() == b.len(),
        forall|k: int| 0 <= k < a.len() ==> #[trigger] a[k].len() == b[k].len(),
        concat(a) + ra == concat(b) + rb,
    ensures
        a == b,
        ra == rb,
    decreases a.len(),
{
    if a.len() == 0 {
        assert(ra =~= concat(a) + ra);
        assert(rb =~= concat(b) + rb);
    } else {
        let x = concat(a) + ra;
        assert(x =~= a[0] + (concat(a.drop_first()) + ra));
        assert(x =~= b[0] + (concat(b.drop_first()) + rb));
        assert(a[0].len() == b[0].len());
        assert(a[0] =~= x.take(a[0].len() as int));
        assert(b[0] =~= x.take(b[0].len() as int));
        assert(concat(a.drop_first()) + ra =~= x.skip(a[0].len() as int));
        assert(concat(b.drop_first()) + rb =~= x.skip(b[0].len() as int));
        assert forall|k: int| 0 <= k < a.drop_first().len() implies #[trigger] a.drop_first()[k].len()
            == b.drop_first()[k].len() by {
            assert(a[k + 1].len() == b[k + 1].len());
        }
        lemma_concat_unique(a.drop_first(), ra, b.drop_first(), rb);
        assert(a =~= seq![a[0]] + a.drop_first());
        assert(b =~= seq![b[0]] + b.drop_first());
    }
}

/// Turns the bytes of a type column into shader types; `None` when a byte names no type.
fn read_types(raw: &[u8]) -> (r: Option<Vec<ShaderType>>)
    ensures
        match r {
            Some(v) => types_bytes(v@) == raw@,
            None => exists|k: int| 0 <= k < raw@.len() && #[trigger] shader_type_of_byte(raw@[k]) is None,
        },
{
    let mut types: Vec<ShaderType> = Vec::new();
    let mut k: usize = 0;
    while k < raw.len()
        invariant
            k <= raw@.len(),
            types_bytes(types@) == raw@.take(k as int),
        decreases raw@.len() - k,
    {
        match ShaderType::from_byte(raw[k]) {
            Some(t) => {
                proof {
                    lemma_byte_names_type(raw@[k as int]);
                    assert(shader_type_byte(t) == raw@[k as int]);
                    assert(types_bytes(types@.push(t)) =~= types_bytes(types@).push(shader_type_byte(t)));
                    assert(raw@.take(k + 1) =~= raw@.take(k as int).push(raw@[k as int]));
                }
                types.push(t);
            },
            None => {
                return None;
            },
        }
        k = k + 1;
    }
    assert(raw@.take(k as int) =~= raw@);
    Some(types)
}

/// Splits off one string per length; `None`, consuming nothing, when the stream holds fewer
/// bytes than the lengths add up to.
fn read_strings<'bytes>(s: &mut Stream<'bytes>, lens: &Vec<u32>) -> (r: Option<Vec<&'bytes [u8]>>)
    ensures
        match r {
            Some(v) => {
                &&& v@.len() == lens@.len()
                &&& forall|j: int| 0 <= j < v@.len() ==> #[trigger] v@[j]@.len() == lens@[j]
                &&& old(s)@ == concat(slices_view(v@)) + final(s)@
            },
            None => final(s)@ == old(s)@ && old(s)@.len() < total_len(lens@),
        },
{
    let ghost start = s@;
    let mut rest = Stream::new(s.as_slice());
    let mut strings: Vec<&'bytes [u8]> = Vec::new();
    let mut k: usize = 0;
    proof {
        assert(lens@.take(0) =~= Seq::<u32>::empty());
        assert(lens@.skip(0) =~= lens@);
        assert(total_len(Seq::<u32>::empty()) == 0);
        assert(slices_view(strings@) =~= Seq::<Seq<u8>>::empty());
        assert(concat(Seq::<Seq<u8>>::empty()) =~= Seq::<u8>::empty());
        assert(start =~= concat(slices_view(strings@)) + rest@);
    }
    while k < lens.len()
        invariant
            k <= lens@.len(),
            s@ == start,
            strings@.len() == k,
            forall|j: int| 0 <= j < k ==> #[trigger] strings@[j]@.len() == lens@[j],
            start == concat(slices_view(strings@)) + rest@,
            total_len(lens@) == total_len(lens@.take(k as int)) + total_len(lens@.skip(k as int)),
            total_len(lens@.take(k as int)) == start.len() - rest@.len(),
        decreases lens@.len() - k,
    {
        let len = lens[k];
        proof {
            assert(lens@.skip(k as int)[0] == len);
            assert(lens@.skip(k as int).drop_first() =~= lens@.skip(k + 1));
            lemma_total_len_push(lens@.take(k as int), len);
            assert(lens@.take(k + 1) =~= lens@.take(k as int).push(len));
            assert(total_len(lens@.skip(k as int)) == len + total_len(lens@.skip(k + 1)));
        }
        if rest.len() < len as usize {
            proof {
                lemma_total_len_nonneg(lens@.skip(k + 1));
            }
            return None;
        }
        let piece = rest.substream(len as usize).as_slice();
        proof {
            lemma_concat_push(slices_view(strings@), piece@);
            assert(slices_view(strings@.push(piece)) =~= slices_view(strings@).push(piece@));
        }
        strings.push(piece);
        k = k + 1;
    }
    *s = rest;
    Some(strings)
}

pub proof fn lemma_total_len_push(lens: Seq<u32>, x: u32)
    ensures
        total_len(lens.push(x)) == total_len(lens) + x,
    decreases lens.len(),
{
    if lens.len() == 0 {
        assert(lens.push(x).drop_first() =~= Seq::<u32>::empty());
        assert(total_len(Seq::<u32>::empty()) == 0);
        assert(lens.push(x)[0] == x);
    } else {
        lemma_total_len_push(lens.drop_first(), x);
        assert(lens.push(x).drop_first() =~= lens.drop_first().push(x));
        assert(lens.push(x)[0] == lens[0]);
    }
}

pub proof fn lemma_total_len_nonneg(lens: Seq<u32>)
    ensures
        total_len(lens) >= 0,
    decreases lens.len(),
{
    if lens.len() > 0 {
        lemma_total_len_nonneg(lens.drop_first());
    }
}

/// `bytes` starts with a string count and that many 32-bit lengths.
pub open spec fn starts_with_lengths(bytes: Seq<u8>) -> bool {
    exists|lens: Seq<u32>, rest: Seq<u8>|
        lens.len() <= u8::MAX && bytes == #[trigger] (lengths_bytes(lens) + rest)
}

/// A string count with its lengths is read back as it was written.
pub proof fn lemma_lengths_unique(a: Seq<u32>, ra: Seq<u8>, b: Seq<u32>, rb: Seq<u8>)
    requires
        a.len() <= u8::MAX,
        b.len() <= u8::MAX,
        lengths_bytes(a) + ra == lengths_bytes(b) + rb,
    ensures
        a == b,
        ra == rb,
{
    let x = lengths_bytes(a) + ra;
    assert(x[0] == a.len() as u8);
    assert(x[0] == b.len() as u8);
    assert(a.len() == b.len());
    lemma_encode_seq_len(a);
    lemma_encode_seq_len(b);
    assert(x.skip(1) =~= encode_seq(a) + ra);
    assert(x.skip(1) =~= encode_seq(b) + rb);
    lemma_decode_encode_seq(a, ra);
    lemma_decode_encode_seq(b, rb);
    assert(ra =~= x.skip(1 + 4 * a.len() as int));
    assert(rb =~= x.skip(1 + 4 * b.len() as int));
}

/// Reads a string count and that many 32-bit lengths; `None`, consuming nothing, when the
/// stream is cut short.
fn read_lengths<'bytes>(s: &mut Stream<'bytes>) -> (r: Option<Vec<u32>>)
    ensures
        match r {
            Some(lens) => lens@.len() <= u8::MAX && old(s)@ == lengths_bytes(lens@) + final(s)@,
            None => final(s)@ == old(s)@ && !starts_with_lengths(old(s)@),
        },
{
    let ghost b = s@;
    if s.len() < 1 {
        proof {
            if starts_with_lengths(b) {
                let (l, r) = choose|l: Seq<u32>, r: Seq<u8>|
                    l.len() <= u8::MAX && b == #[trigger] (lengths_bytes(l) + r);
                assert(b.len() >= 1);
            }
        }
        return None;
    }
    let mut rest = Stream::new(s.as_slice());
    let count = rest.read_u8();
    if rest.len() / 4 < count as usize {
        proof {
            if starts_with_lengths(b) {
                let (l, r) = choose|l: Seq<u32>, r: Seq<u8>|
                    l.len() <= u8::MAX && b == #[trigger] (lengths_bytes(l) + r);
                lemma_encode_seq_len(l);
                assert(b[0] == l.len() as u8);
                assert(rest@ =~= encode_seq(l) + r);
            }
        }
        return None;
    }
    let ghost after = rest@;
    let lens = if count == 0 {
        Vec::new()
    } else {
        rest.substream_of::<u32>(count as usize)
    };
    proof {
        lemma_decode_seq_len::<u32>(after, count as nat);
        lemma_u32_seq_encode_decode(after, count as nat);
        assert(b =~= lengths_bytes(lens@) + rest@);
    }
    *s = rest;
    Some(lens)
}

/// Reads an exported shader table. It returns `None`, and consumes nothing, exactly when the
/// stream does not start with a table whose counts fit their fields (a column cut short, a type
/// byte that names no shader type, strings cut short).
#[verifier::spinoff_prover]
pub fn read_shader_table<'bytes>(stream: &mut Stream<'bytes>) -> (r: Option<ShaderTable<'bytes>>)
    ensures
        match r {
            Some(t) => t.fits() && old(stream)@ == t.bytes() + final(stream)@,
            None => final(stream)@ == old(stream)@ && !starts_with_table(old(stream)@),
        },
{
    let ghost b = stream@;
    let ghost has = starts_with_table(b);
    let ghost w = if has {
        choose|c: Seq<u8>, t: Seq<ShaderType>, i: Seq<u8>, s: Seq<Seq<u8>>, rest: Seq<u8>|
            table_fits(c, t, i, s) && b == #[trigger] (shader_table_bytes(c, t, i, s) + rest)
    } else {
        arbitrary()
    };
    let ghost (wc, wt, wi, ws, wrest) = w;
    let ghost tail4 = concat(ws) + wrest;
    let ghost tail3 = lengths_bytes(string_lengths(ws)) + tail4;
    let ghost tail2 = column_bytes(wi) + tail3;
    let ghost tail1 = column_bytes(types_bytes(wt)) + tail2;
    proof {
        if has {
            lemma_table_bytes_split(wc, wt, wi, ws, wrest);
        }
    }
    let mut s = Stream::new(stream.as_slice());
    let creation = match read_column(&mut s) {
        Some(c) => c,
        None => {
            proof {
                if has {
                    assert(starts_with_column(b));
                }
            }
            return None;
        },
    };
    proof {
        if has {
            lemma_column_unique(creation@, s@, wc, tail1);
        }
    }
    let ghost after1 = s@;
    let raw_types = match read_column(&mut s) {
        Some(c) => c,
        None => {
            proof {
                if has {
                    assert(starts_with_column(after1));
                }
            }
            return None;
        },
    };
    proof {
        if has {
            lemma_column_unique(raw_types@, s@, types_bytes(wt), tail2);
        }
    }
    let entry_point_types = match read_types(raw_types) {
        Some(v) => v,
        None => {
            proof {
                if has {
                    let k = choose|k: int|
                        0 <= k < raw_types@.len() && #[trigger] shader_type_of_byte(raw_types@[k]) is None;
                    lemma_shader_type_byte(wt[k]);
                    assert(raw_types@[k] == shader_type_byte(wt[k]));
                }
            }
            return None;
        },
    };
    let ghost after2 = s@;
    let indices = match read_column(&mut s) {
        Some(c) => c,
        None => {
            proof {
                if has {
                    assert(starts_with_column(after2));
                }
            }
            return None;
        },
    };
    proof {
        if has {
            lemma_column_unique(indices@, s@, wi, tail3);
        }
    }
    let ghost after3 = s@;
    let lens = match read_lengths(&mut s) {
        Some(l) => l,
        None => {
            proof {
                if has {
                    assert(starts_with_lengths(after3));
                }
            }
            return None;
        },
    };
    proof {
        if has {
            lemma_lengths_unique(lens@, s@, string_lengths(ws), tail4);
            lemma_concat_len(ws);
        }
    }
    let ghost after4 = s@;
    let strings = match read_strings(&mut s, &lens) {
        Some(v) => v,
        None => {
            return None;
        },
    };
    let ghost sv = slices_view(strings@);
    proof {
        assert(string_lengths(sv) =~= lens@);
        assert forall|j: int| 0 <= j < sv.len() implies #[trigger] sv[j].len() <= u32::MAX by {
            assert(strings@[j]@.len() == lens@[j]);
        }
        lemma_table_bytes_split(creation@, entry_point_types@, indices@, sv, s@);
    }
    *stream = s;
    Some(
        ShaderTable {
            creation_indices: vstd::slice::slice_to_vec(creation),
            entry_point_types,
            entry_point_indices: vstd::slice::slice_to_vec(indices),
            strings,
        },
    )
}

/// Four bytes are written back as they were read as a 32-bit word.
pub proof fn lemma_u32_encode_decode(b: Seq<u8>)
    requires
        b.len() == 4,
    ensures
        le_bytes_u32(crate::binary_writer::le_word_u32(b)) == b,
{
    let b0 = b[0];
    let b1 = b[1];
    let b2 = b[2];
    let b3 = b[3];
    let w = crate::binary_writer::le_word_u32(b);
    assert((w & 0xff) as u8 == b0 && ((w >> 8) & 0xff) as u8 == b1 && ((w >> 16) & 0xff) as u8 == b2
        && ((w >> 24) & 0xff) as u8 == b3) by (bit_vector)
        requires
            w == (b0 as u32) | ((b1 as u32) << 8) | ((b2 as u32) << 16) | ((b3 as u32) << 24),
    ;
    assert(le_bytes_u32(w) =~= b);
}

/// Re-encoding the first `n` 32-bit words of `bytes` gives back the bytes they came from.
pub proof fn lemma_u32_seq_encode_decode(bytes: Seq<u8>, n: nat)
    requires
        n * 4 <= bytes.len(),
    ensures
        encode_seq(decode_seq::<u32>(bytes, n)) == bytes.take((n * 4) as int),
    decreases n,
{
    if n > 0 {
        let d = decode_seq::<u32>(bytes, n);
        lemma_u32_seq_encode_decode(bytes.skip(4), (n - 1) as nat);
        lemma_u32_encode_decode(bytes.take(4));
        assert(d[0] == crate::binary_writer::le_word_u32(bytes.take(4)));
        assert(d.drop_first() =~= decode_seq::<u32>(bytes.skip(4), (n - 1) as nat));
        assert(bytes.take((n * 4) as int) =~= bytes.take(4) + bytes.skip(4).take((n - 1) * 4));
    } else {
        assert(bytes.take(0) =~= Seq::<u8>::empty());
    }
}

pub proof fn lemma_decode_seq_len<T: CopyWritable>(bytes: Seq<u8>, n: nat)
    ensures
        decode_seq::<T>(bytes, n).len() == n,
    decreases n,
{
    if n > 0 {
        lemma_decode_seq_len::<T>(bytes.skip(T::byte_size() as int), (n - 1) as nat);
    }
}

pub proof fn lemma_types_bytes_injective(a: Seq<ShaderType>, b: Seq<ShaderType>)
    requires
        types_bytes(a) == types_bytes(b),
    ensures
        a == b,
{
    assert(a.len() == types_bytes(a).len());
    assert(b.len() == types_bytes(b).len());
    assert forall|k: int| 0 <= k < a.len() implies a[k] == b[k] by {
        lemma_shader_type_byte(a[k]);
        lemma_shader_type_byte(b[k]);
        assert(types_bytes(a)[k] == shader_type_byte(a[k]));
        assert(types_bytes(b)[k] == shader_type_byte(b[k]));
        assert(types_bytes(a)[k] == types_bytes(b)[k]);
    }
    assert(a =~= b);
}

/// The exported form of a shader table is unambiguous: whatever follows it, it can be read
/// back in one way only, so reading what was written gives the same table back.
pub proof fn law_shader_table_unambiguous(
    c: Seq<u8>,
    t: Seq<ShaderType>,
    i: Seq<u8>,
    s: Seq<Seq<u8>>,
    rest: Seq<u8>,
    c2: Seq<u8>,
    t2: Seq<ShaderType>,
    i2: Seq<u8>,
    s2: Seq<Seq<u8>>,
    rest2: Seq<u8>,
)
    requires
        table_fits(c, t, i, s),
        table_fits(c2, t2, i2, s2),
        shader_table_bytes(c, t, i, s) + rest == shader_table_bytes(c2, t2, i2, s2) + rest2,
    ensures
        c == c2,
        t == t2,
        i == i2,
        s == s2,
        rest == rest2,
{
    lemma_table_bytes_split(c, t, i, s, rest);
    lemma_table_bytes_split(c2, t2, i2, s2, rest2);
    let tail1 = column_bytes(types_bytes(t)) + (column_bytes(i) + (lengths_bytes(string_lengths(s))
        + (concat(s) + rest)));
    let tail1b = column_bytes(types_bytes(t2)) + (column_bytes(i2) + (lengths_bytes(
        string_lengths(s2),
    ) + (concat(s2) + rest2)));
    lemma_column_unique(c, tail1, c2, tail1b);
    let tail2 = column_bytes(i) + (lengths_bytes(string_lengths(s)) + (concat(s) + rest));
    let tail2b = column_bytes(i2) + (lengths_bytes(string_lengths(s2)) + (concat(s2) + rest2));
    lemma_column_unique(types_bytes(t), tail2, types_bytes(t2), tail2b);
    lemma_types_bytes_injective(t, t2);
    let tail3 = lengths_bytes(string_lengths(s)) + (concat(s) + rest);
    let tail3b = lengths_bytes(string_lengths(s2)) + (concat(s2) + rest2);
    lemma_column_unique(i, tail3, i2, tail3b);
    lemma_lengths_unique(string_lengths(s), concat(s) + rest, string_lengths(s2), concat(s2) + rest2);
    assert forall|k: int| 0 <= k < s.len() implies #[trigger] s[k].len() == s2[k].len() by {
        assert(string_lengths(s)[k] == string_lengths(s2)[k]);
    }
    lemma_concat_unique(s, rest, s2, rest2);
}

/// A written table reads back whole: whatever follows it, the reader finds a table there, and
/// the table it finds (`read`, with `left` the bytes after it, as `read_shader_table` gives
/// them) is the one written: the same creation indices, the same entry points with the same
/// count of each shader type, the same sources, and what followed it left over.
pub proof fn law_shader_table_read_back<'b>(
    c: Seq<u8>,
    t: Seq<ShaderType>,
    i: Seq<u8>,
    s: Seq<Seq<u8>>,
    rest: Seq<u8>,
    read: ShaderTable<'b>,
    left: Seq<u8>,
)
    requires
        table_fits(c, t, i, s),
        read.fits(),
        read.bytes() + left == shader_table_bytes(c, t, i, s) + rest,
    ensures
        starts_with_table(shader_table_bytes(c, t, i, s) + rest),
        read.creation_indices@ == c,
        read.entry_point_types@ == t,
        read.entry_point_types@.len() == t.len(),
        forall|ty: ShaderType| #[trigger] read.entry_point_types@.to_multiset().count(ty) == t.to_multiset().count(ty),
        read.entry_point_indices@ == i,
        slices_view(read.strings@) == s,
        read.strings@.len() == s.len(),
        left == rest,
{
    law_shader_table_recognised(c, t, i, s, rest);
    law_shader_table_unambiguous(
        read.creation_indices@,
        read.entry_point_types@,
        read.entry_point_indices@,
        slices_view(read.strings@),
        left,
        c,
        t,
        i,
        s,
        rest,
    );
}

/// Writing a table whose counts fit their fields and then reading it back gives the same
/// table: its exported form, followed by anything, is recognised as a table.
pub proof fn law_shader_table_recognised(
    c: Seq<u8>,
    t: Seq<ShaderType>,
    i: Seq<u8>,
    s: Seq<Seq<u8>>,
    rest: Seq<u8>,
)
    requires
        table_fits(c, t, i, s),
    ensures
        starts_with_table(shader_table_bytes(c, t, i, s) + rest),
{
    assert(table_fits(c, t, i, s) && shader_table_bytes(c, t, i, s) + rest == (shader_table_bytes(
        c,
        t,
        i,
        s,
    ) + rest));
}

} // verus!
