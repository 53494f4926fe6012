//! The bytes of the tensor files: the pickle that describes a
//! one-dimensional 32-bit integer tensor, and the tensor's data in
//! little-endian order.
use vstd::prelude::*;
use vstd::string::StrSliceExecFns;
use vstd::string::StringSliceAdditionalSpecFns;

verus! {

/// The four little-endian bytes of `v`.
pub open spec fn le32(v: u32) -> Seq<u8> {
    seq![(v % 256) as u8, (v / 256 % 256) as u8, (v / 65536 % 256) as u8, (v / 16777216 % 256) as u8]
}

/// The four little-endian bytes of `x` in two's complement.
pub open spec fn le_i32(x: i32) -> Seq<u8> {
    le32(x as u32)
}

/// The bytes of `x`, least significant first.
pub fn i32_le_bytes(x: i32) -> (r: [u8; 4])
    ensures
        r@ == le_i32(x),
{
    let v = x as u32;
    let r = [(v % 256) as u8, (v / 256 % 256) as u8, (v / 65536 % 256) as u8, (v / 16777216 % 256) as u8];
    assert(r@ =~= le32(v));
    r
}

fn push_bytes(out: &mut Vec<u8>, b: &[u8])
    ensures
        final(out)@ == old(out)@ + b@,
{
    let mut i: usize = 0;
    let ghost o0 = out@;
    while i < b.len()
        invariant
            i <= b.len(),
            out@ == o0 + b@.subrange(0, i as int),
        decreases b.len() - i,
    {
        out.push(b[i]);
        i = i + 1;
    }
    assert(b@.subrange(0, b@.len() as int) =~= b@);
}

/// The data of a tensor: each value's little-endian bytes in turn.
pub open spec fn le_i32_all(xs: Seq<i32>) -> Seq<u8>
    decreases xs.len(),
{
    if xs.len() == 0 {
        Seq::empty()
    } else {
        le_i32_all(xs.drop_last()) + le_i32(xs.last())
    }
}

/// Appends the little-endian bytes of `xs[from..to]`.
pub fn push_le_i32s(out: &mut Vec<u8>, xs: &Vec<i32>, from: usize, to: usize)
    requires
        from <= to <= xs.len(),
    ensures
        final(out)@ == old(out)@ + le_i32_all(xs@.subrange(from as int, to as int)),
{
    let ghost o0 = out@;
    let mut i: usize = from;
    while i < to
        invariant
            from <= i <= to <= xs.len(),
            out@ == o0 + le_i32_all(xs@.subrange(from as int, i as int)),
        decreases to - i,
    {
        let b = i32_le_bytes(xs[i]);
        push_bytes(out, &b);
        proof {
            assert(xs@.subrange(from as int, i + 1).drop_last() =~= xs@.subrange(from as int, i as int));
            assert(xs@.subrange(from as int, i + 1).last() == xs@[i as int]);
        }
        i = i + 1;
    }
}

/// The GLOBAL opcode: `c`, the module, a newline, the name, a newline.
pub open spec fn global_spec(module: &str, name: &str) -> Seq<u8> {
    seq![0x63u8] + module.spec_bytes() + seq![0x0au8] + name.spec_bytes() + seq![0x0au8]
}

/// The BINPUT opcode: `q` and the memo slot.
pub open spec fn binput_spec(id: u8) -> Seq<u8> {
    seq![0x71u8, id]
}

/// The BINUNICODE opcode: `X`, the byte length, the UTF-8 bytes.
pub open spec fn binunicode_spec(s: &str) -> Seq<u8> {
    seq![0x58u8] + le32(s.spec_bytes().len() as u32) + s.spec_bytes()
}

/// The BININT opcode: `J` and the value's four bytes.
pub open spec fn binint_spec(x: i32) -> Seq<u8> {
    seq![0x4au8] + le_i32(x)
}

/// Appends a GLOBAL opcode.
pub fn pickle_global(out: &mut Vec<u8>, module: &str, name: &str)
    ensures
        final(out)@ == old(out)@ + global_spec(module, name),
{
    out.push(0x63);
    let m = module.as_bytes_vec();
    push_bytes(out, m.as_slice());
    out.push(0x0a);
    let n = name.as_bytes_vec();
    push_bytes(out, n.as_slice());
    out.push(0x0a);
    assert(out@ =~= old(out)@ + global_spec(module, name));
}

/// Appends a BINPUT opcode.
pub fn pickle_binput(out: &mut Vec<u8>, id: u8)
    ensures
        final(out)@ == old(out)@ + binput_spec(id),
{
    out.push(0x71);
    out.push(id);
    assert(out@ =~= old(out)@ + binput_spec(id));
}

/// Appends a BINUNICODE opcode.
pub fn pickle_binunicode(out: &mut Vec<u8>, s: &str)
    ensures
        final(out)@ == old(out)@ + binunicode_spec(s),
{
    out.push(0x58);
    let b = s.as_bytes_vec();
    let len = b.len() as u32;
    let lb = i32_le_bytes(len as i32);
    proof {
        assert((len as i32) as u32 == len) by (bit_vector);
    }
    push_bytes(out, &lb);
    push_bytes(out, b.as_slice());
    assert(out@ =~= old(out)@ + binunicode_spec(s));
}

/// Appends a BININT opcode.
pub fn pickle_binint(out: &mut Vec<u8>, x: i32)
    ensures
        final(out)@ == old(out)@ + binint_spec(x),
{
    out.push(0x4a);
    let b = i32_le_bytes(x);
    push_bytes(out, &b);
    assert(out@ =~= old(out)@ + binint_spec(x));
}

/// The pickle of a one-dimensional `torch.IntTensor` of `len` values
/// stored in storage `0` on the CPU, as `torch.save` writes it: protocol
/// 2, `_rebuild_tensor_v2(storage, 0, (len,), (1,), False, OrderedDict())`.
pub open spec fn tensor_pickle_spec(len: usize) -> Seq<u8> {
    let n = len as i32;
    seq![0x80u8, 0x02u8]
        + global_spec("torch._utils", "_rebuild_tensor_v2") + binput_spec(0)
        + seq![0x28u8, 0x28u8]
        + binunicode_spec("storage") + binput_spec(1)
        + global_spec("torch", "IntStorage") + binput_spec(2)
        + binunicode_spec("0") + binput_spec(3)
        + binunicode_spec("cpu") + binput_spec(4)
        + binint_spec(n)
        + seq![0x74u8] + binput_spec(5)
        + seq![0x51u8]
        + binint_spec(0) + binint_spec(n)
        + seq![0x85u8] + binput_spec(6)
        + binint_spec(1)
        + seq![0x85u8] + binput_spec(7)
        + seq![0x89u8]
        + global_spec("collections", "OrderedDict") + binput_spec(8)
        + seq![0x29u8, 0x52u8] + binput_spec(9)
        + seq![0x74u8] + binput_spec(10)
        + seq![0x52u8] + binput_spec(11)
        + seq![0x2eu8]
}

/// The pickle that describes a 32-bit integer tensor of `len` values.
#[verifier::rlimit(100)]
pub fn torch_int_tensor_pickle(len: usize) -> (p: Vec<u8>)
    ensures
        p@ == tensor_pickle_spec(len),
{
    let n = len as i32;
    let mut p: Vec<u8> = Vec::new();
    p.push(0x80);
    p.push(0x02);
    pickle_global(&mut p, "torch._utils", "_rebuild_tensor_v2");
    pickle_binput(&mut p, 0);
    p.push(0x28);
    p.push(0x28);
    pickle_binunicode(&mut p, "storage");
    pickle_binput(&mut p, 1);
    pickle_global(&mut p, "torch", "IntStorage");
    pickle_binput(&mut p, 2);
    pickle_binunicode(&mut p, "0");
    pickle_binput(&mut p, 3);
    pickle_binunicode(&mut p, "cpu");
    pickle_binput(&mut p, 4);
    pickle_binint(&mut p, n);
    p.push(0x74);
    pickle_binput(&mut p, 5);
    p.push(0x51);
    pickle_binint(&mut p, 0);
    pickle_binint(&mut p, n);
    p.push(0x85);
    pickle_binput(&mut p, 6);
    pickle_binint(&mut p, 1);
    p.push(0x85);
    pickle_binput(&mut p, 7);
    p.push(0x89);
    pickle_global(&mut p, "collections", "OrderedDict");
    pickle_binput(&mut p, 8);
    p.push(0x29);
    p.push(0x52);
    pickle_binput(&mut p, 9);
    p.push(0x74);
    pickle_binput(&mut p, 10);
    p.push(0x52);
    pickle_binput(&mut p, 11);
    p.push(0x2e);
    assert(p@ =~= tensor_pickle_spec(len));
    p
}

} // verus!
