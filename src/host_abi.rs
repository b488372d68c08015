use vstd::prelude::*;
use vstd::utf8::*;

verus! {

/// The functions that the host offers a guest.
#[derive(PartialEq, Eq, Structural, Clone, Copy, Debug)]
pub enum HostFunction {
    ReadValue,
    Write,
    Add,
    NewUref,
    GetArg,
    GetArgSize,
    CallContract,
    Ret,
    Revert,
    ReadHostBuffer,
    IsValidUref,
}

/// The name under which a guest imports a host function.
pub open spec fn host_name(f: HostFunction) -> Seq<char> {
    match f {
        HostFunction::ReadValue => "read_value"@,
        HostFunction::Write => "write"@,
        HostFunction::Add => "add"@,
        HostFunction::NewUref => "new_uref"@,
        HostFunction::GetArg => "get_arg"@,
        HostFunction::GetArgSize => "get_arg_size"@,
        HostFunction::CallContract => "call_contract"@,
        HostFunction::Ret => "ret"@,
        HostFunction::Revert => "revert"@,
        HostFunction::ReadHostBuffer => "read_host_buffer"@,
        HostFunction::IsValidUref => "is_valid_uref"@,
    }
}

/// The index by which the interpreter hands a call to the host.
pub open spec fn host_index(f: HostFunction) -> usize {
    match f {
        HostFunction::ReadValue => 0,
        HostFunction::Write => 1,
        HostFunction::Add => 2,
        HostFunction::NewUref => 3,
        HostFunction::GetArg => 4,
        HostFunction::GetArgSize => 5,
        HostFunction::CallContract => 6,
        HostFunction::Ret => 7,
        HostFunction::Revert => 8,
        HostFunction::ReadHostBuffer => 9,
        HostFunction::IsValidUref => 10,
    }
}

/// How many `i32` parameters a host function takes.
pub open spec fn host_param_count(f: HostFunction) -> usize {
    match f {
        HostFunction::ReadValue => 3,
        HostFunction::Write => 4,
        HostFunction::Add => 4,
        HostFunction::NewUref => 3,
        HostFunction::GetArg => 3,
        HostFunction::GetArgSize => 2,
        HostFunction::CallContract => 5,
        HostFunction::Ret => 2,
        HostFunction::Revert => 1,
        HostFunction::ReadHostBuffer => 3,
        HostFunction::IsValidUref => 2,
    }
}

/// Whether a host function returns an `i32`.
pub open spec fn host_returns_value(f: HostFunction) -> bool {
    match f {
        HostFunction::ReadValue => true,
        HostFunction::Write => true,
        HostFunction::Add => true,
        HostFunction::NewUref => false,
        HostFunction::GetArg => true,
        HostFunction::GetArgSize => true,
        HostFunction::CallContract => true,
        HostFunction::Ret => false,
        HostFunction::Revert => false,
        HostFunction::ReadHostBuffer => true,
        HostFunction::IsValidUref => true,
    }
}

/// Whether two strings hold the same characters.
pub fn name_is(name: &str, expected: &str) -> (r: bool)
    ensures
        r == (name@ == expected@),
{
    let a = name.as_bytes();
    let b = expected.as_bytes();
    proof {
        encode_utf8_decode_utf8(name@);
        encode_utf8_decode_utf8(expected@);
    }
    if a.len() != b.len() {
        return false;
    }
    let mut i: usize = 0;
    while i < a.len()
        invariant
            0 <= i <= a@.len(),
            a@.len() == b@.len(),
            a@ == encode_utf8(name@),
            b@ == encode_utf8(expected@),
            forall|j: int| 0 <= j < i ==> a@[j] == b@[j],
        decreases a@.len() - i,
    {
        if a[i] != b[i] {
            return false;
        }
        i = i + 1;
    }
    assert(a@ =~= b@);
    true
}

/// The host function that a guest imports as `name`.
pub fn host_function_by_name(name: &str) -> (r: Option<HostFunction>)
    ensures
        match r {
            Some(f) => host_name(f) == name@,
            None => forall|f: HostFunction| host_name(f) != name@,
        },
{
    if name_is(name, "read_value") {
        return Some(HostFunction::ReadValue);
    }
    if name_is(name, "write") {
        return Some(HostFunction::Write);
    }
    if name_is(name, "add") {
        return Some(HostFunction::Add);
    }
    if name_is(name, "new_uref") {
        return Some(HostFunction::NewUref);
    }
    if name_is(name, "get_arg") {
        return Some(HostFunction::GetArg);
    }
    if name_is(name, "get_arg_size") {
        return Some(HostFunction::GetArgSize);
    }
    if name_is(name, "call_contract") {
        return Some(HostFunction::CallContract);
    }
    if name_is(name, "ret") {
        return Some(HostFunction::Ret);
    }
    if name_is(name, "revert") {
        return Some(HostFunction::Revert);
    }
    if name_is(name, "read_host_buffer") {
        return Some(HostFunction::ReadHostBuffer);
    }
    if name_is(name, "is_valid_uref") {
        return Some(HostFunction::IsValidUref);
    }
    None
}

/// The host function with an index.
pub fn host_function_by_index(i: usize) -> (r: Option<HostFunction>)
    ensures
        match r {
            Some(f) => host_index(f) == i,
            None => forall|f: HostFunction| host_index(f) != i,
        },
{
    match i {
        0 => Some(HostFunction::ReadValue),
        1 => Some(HostFunction::Write),
        2 => Some(HostFunction::Add),
        3 => Some(HostFunction::NewUref),
        4 => Some(HostFunction::GetArg),
        5 => Some(HostFunction::GetArgSize),
        6 => Some(HostFunction::CallContract),
        7 => Some(HostFunction::Ret),
        8 => Some(HostFunction::Revert),
        9 => Some(HostFunction::ReadHostBuffer),
        10 => Some(HostFunction::IsValidUref),
        _ => None,
    }
}

impl HostFunction {
    pub fn index(&self) -> (r: usize)
        ensures
            r == host_index(*self),
    {
        match self {
            HostFunction::ReadValue => 0,
            HostFunction::Write => 1,
            HostFunction::Add => 2,
            HostFunction::NewUref => 3,
            HostFunction::GetArg => 4,
            HostFunction::GetArgSize => 5,
            HostFunction::CallContract => 6,
            HostFunction::Ret => 7,
            HostFunction::Revert => 8,
            HostFunction::ReadHostBuffer => 9,
            HostFunction::IsValidUref => 10,
        }
    }

    pub fn param_count(&self) -> (r: usize)
        ensures
            r == host_param_count(*self),
    {
        match self {
            HostFunction::ReadValue => 3,
            HostFunction::Write => 4,
            HostFunction::Add => 4,
            HostFunction::NewUref => 3,
            HostFunction::GetArg => 3,
            HostFunction::GetArgSize => 2,
            HostFunction::CallContract => 5,
            HostFunction::Ret => 2,
            HostFunction::Revert => 1,
            HostFunction::ReadHostBuffer => 3,
            HostFunction::IsValidUref => 2,
        }
    }

    pub fn returns_value(&self) -> (r: bool)
        ensures
            r == host_returns_value(*self),
    {
        match self {
            HostFunction::ReadValue => true,
            HostFunction::Write => true,
            HostFunction::Add => true,
            HostFunction::NewUref => false,
            HostFunction::GetArg => true,
            HostFunction::GetArgSize => true,
            HostFunction::CallContract => true,
            HostFunction::Ret => false,
            HostFunction::Revert => false,
            HostFunction::ReadHostBuffer => true,
            HostFunction::IsValidUref => true,
        }
    }
}

} // verus!
