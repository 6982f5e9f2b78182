use vstd::prelude::*;

verus! {

proof fn p1(v: u32)
    requires
        v < 0xd800,
    ensures
        (v as char) as u32 == v,
{
}

proof fn p2(c1: char, c2: char)
    requires
        c1 as u32 == c2 as u32,
    ensures
        c1 == c2,
{
}

proof fn p3(v: u32)
    requires
        0xe000 <= v <= 0x10ffff,
    ensures
        (v as char) as u32 == v,
{
}

} // verus!
