//! The decisions of the WebAssembly plugin host: where a plugin's module is
//! read from, and what a logic plugin's packed reply means.
use vstd::prelude::*;
use vstd::string::StringExecFns;

verus! {

/// Where the module of a WebAssembly plugin is read from.
#[derive(Debug, Clone, PartialEq, Eq)]
pub enum ModuleSource {
    /// The plugin name is itself the path of a `.wasm` file.
    File(String),
    /// A file of this name in the plugin directory.
    InPluginDir(String),
}

/// Whether `s` ends with `suffix`.
pub open spec fn has_suffix(s: Seq<char>, suffix: Seq<char>) -> bool {
    suffix.len() <= s.len() && s.skip(s.len() - suffix.len()) == suffix
}

/// Where the module of the plugin `name` is read from: `name` itself when it
/// ends with `.wasm`, else `<name>.wasm` in the plugin directory.
pub fn module_source(name: &str) -> (r: ModuleSource)
    ensures
        has_suffix(name@, ".wasm"@) ==> (r matches ModuleSource::File(p) && p@ == name@),
        !has_suffix(name@, ".wasm"@) ==> (r matches ModuleSource::InPluginDir(f) && f@ == name@
            + ".wasm"@),
{
    let chars = crate::text::chars_of(name);
    let ext = crate::text::chars_of(".wasm");
    let n = chars.len();
    let m = ext.len();
    let mut ends = m <= n;
    if ends {
        let mut j: usize = 0;
        while j < m
            invariant
                m <= n,
                n == chars@.len(),
                m == ext@.len(),
                j <= m,
                ends ==> forall|k: int| 0 <= k < j ==> chars@[n - m + k] == ext@[k],
                !ends ==> !has_suffix(chars@, ext@),
            decreases m - j,
        {
            if chars[n - m + j] != ext[j] {
                if ends {
                    assert(chars@.skip(n - m)[j as int] == chars@[n - m + j]);
                }
                ends = false;
            }
            j = j + 1;
        }
        if ends {
            assert(chars@.skip(n - m) =~= ext@);
        }
    }
    if ends {
        ModuleSource::File(name.to_owned())
    } else {
        let mut f = name.to_owned();
        f.append(".wasm");
        ModuleSource::InPluginDir(f)
    }
}

/// What a logic plugin's `handle_command` returned.
#[derive(Debug, Clone, Copy, PartialEq, Eq, Structural)]
pub enum CommandReply {
    /// A reply of `len` bytes at `ptr` in the plugin's memory.
    Bytes { ptr: i32, len: i32 },
    /// No reply; the host answers null.
    Empty,
}

/// Splits the packed reply of `handle_command`: the high 32 bits are the
/// pointer, the low 32 bits the length; a length that is not positive means
/// no reply.
pub fn unpack_reply(packed: i64) -> (r: CommandReply)
    ensures
        ({
            let ptr = (packed >> 32u64) as i32;
            let len = (packed & 0xFFFF_FFFFi64) as i32;
            &&& ptr as int * 0x1_0000_0000 + len as u32 as int == packed as int
            &&& r == if len > 0 {
                CommandReply::Bytes { ptr, len }
            } else {
                CommandReply::Empty
            }
        }),
{
    let ptr = (packed >> 32u64) as i32;
    let len = (packed & 0xFFFF_FFFFi64) as i32;
    assert(ptr as int * 0x1_0000_0000 + len as u32 as int == packed as int) by (bit_vector)
        requires
            ptr == (packed >> 32u64) as i32,
            len == (packed & 0xFFFF_FFFFi64) as i32,
    ;
    if len > 0 {
        CommandReply::Bytes { ptr, len }
    } else {
        CommandReply::Empty
    }
}

/// What the host function `db_put` answers a plugin: -1 when the plugin
/// exports no memory, -2 when the key cannot be read from it, -3 when the
/// value cannot, -4 when the store refuses the write, and 0 once it is
/// stored. Each step is taken only when those before it succeeded.
pub fn db_put_status(has_memory: bool, key_read: bool, value_read: bool, stored: bool) -> (r: i32)
    ensures
        r == (if !has_memory {
            -1
        } else if !key_read {
            -2
        } else if !value_read {
            -3
        } else if !stored {
            -4
        } else {
            0
        }),
{
    if !has_memory {
        -1
    } else if !key_read {
        -2
    } else if !value_read {
        -3
    } else if !stored {
        -4
    } else {
        0
    }
}

/// What the host function `raw_read` answers a plugin: -1 when the plugin
/// exports no memory; else, when `read_count` bytes came from the
/// connection, -2 if they could not be copied into the plugin's memory and
/// their number if they were; 0 when nothing came.
pub fn raw_read_status(has_memory: bool, read_count: usize, copied: bool) -> (r: i32)
    requires
        read_count <= i32::MAX,
    ensures
        r == (if !has_memory {
            -1
        } else if read_count > 0 && !copied {
            -2
        } else {
            read_count as int
        }),
{
    if !has_memory {
        -1
    } else if read_count > 0 && !copied {
        -2
    } else {
        read_count as i32
    }
}

/// What the host function `raw_write` answers a plugin: -1 when the plugin
/// exports no memory, -2 when the bytes cannot be read from it, the number
/// of bytes sent when the connection took them all, and 0 when it did not.
pub fn raw_write_status(has_memory: bool, bytes_read: bool, sent: Option<usize>) -> (r: i32)
    requires
        sent matches Some(n) ==> n <= i32::MAX,
    ensures
        r == (if !has_memory {
            -1
        } else if !bytes_read {
            -2
        } else {
            match sent {
                Some(n) => n as int,
                None => 0,
            }
        }),
{
    if !has_memory {
        -1
    } else if !bytes_read {
        -2
    } else {
        match sent {
            Some(n) => n as i32,
            None => 0,
        }
    }
}

} // verus!
