//! Shared data shapes of the profiler: the kernel-side sampling records and
//! keys, the runtime descriptor, and the per-function symbol records.
use vstd::prelude::*;

use crate::strutil::{dec_string, spec_dec};

verus! {

/// Maximum number of stack frames one stack-trace slot can hold.
pub const MAX_STACK_DEPTH: usize = 127;

/// Maximum length of a function name.
pub const MAX_FUNC_NAME_LEN: usize = 256;

/// Marks an on-CPU sample in an aggregation key.
pub const SAMPLE_TYPE_ON_CPU: u8 = 1;

/// Marks an off-CPU sample in an aggregation key.
pub const SAMPLE_TYPE_OFF_CPU: u8 = 2;

/// One sampled stack frame.
#[derive(Clone, Copy, PartialEq, Eq, Structural, Debug)]
pub struct StackFrame {
    /// Program counter (instruction pointer).
    pub pc: u64,
    /// Stack pointer.
    pub sp: u64,
    /// Entry point of the containing function.
    pub func_entry: u64,
}

/// One sample event as the in-kernel sampler would emit it.
#[derive(Clone, Copy)]
pub struct SampleEvent {
    /// Process ID.
    pub pid: u32,
    /// Thread ID.
    pub tid: u32,
    /// CPU the sample was taken on.
    pub cpu: u32,
    /// Timestamp in nanoseconds.
    pub timestamp: u64,
    /// Sample kind (on-CPU or off-CPU).
    pub sample_type: u8,
    /// Number of valid entries in `stack`.
    pub stack_depth: u8,
    /// The captured frames.
    pub stack: [StackFrame; 127],
    /// Duration in nanoseconds, for off-CPU events.
    pub duration: u64,
}

/// Aggregation key as the in-kernel maps hold it: 16 bytes of
/// `(pid, user stack id, kernel stack id, kind, padding)`.
#[derive(Clone, Copy, Debug, Hash, PartialEq, Eq)]
pub struct EbpfProfileKey {
    /// Process ID.
    pub pid: u32,
    /// User stack ID from the stack-trace map, -1 when unavailable.
    pub user_stack_id: i32,
    /// Kernel stack ID from the stack-trace map, -1 when unavailable.
    pub kernel_stack_id: i32,
    /// Sample kind (on-CPU or off-CPU).
    pub sample_type: u8,
    /// Padding for alignment.
    pub _padding: [u8; 3],
}

/// Aggregation key as user space carries it onward.
#[derive(Clone, Copy, Debug, Hash, PartialEq, Eq)]
pub struct ProfileKey {
    /// Process ID.
    pub pid: u32,
    /// Kernel instruction pointer.
    pub kernel_ip: u64,
    /// User stack ID from the stack-trace map, -1 when unavailable.
    pub user_stack_id: i32,
    /// Kernel stack ID from the stack-trace map, -1 when unavailable.
    pub kernel_stack_id: i32,
    /// Process name.
    pub name: [u8; 16],
    /// Sample kind (on-CPU or off-CPU).
    pub sample_type: u8,
}

impl ProfileKey {
    /// Widens a kernel-side aggregation key into the user-space key,
    /// leaving the fields the kernel does not report zeroed.
    pub fn from_ebpf(key: &EbpfProfileKey) -> (r: ProfileKey)
        ensures
            r.pid == key.pid,
            r.kernel_ip == 0,
            r.user_stack_id == key.user_stack_id,
            r.kernel_stack_id == key.kernel_stack_id,
            forall|i: int| 0 <= i < 16 ==> r.name[i] == 0,
            r.sample_type == key.sample_type,
    {
        ProfileKey {
            pid: key.pid,
            kernel_ip: 0,
            user_stack_id: key.user_stack_id,
            kernel_stack_id: key.kernel_stack_id,
            name: [0u8; 16],
            sample_type: key.sample_type,
        }
    }
}

/// The runtime descriptor: detected version and per-version offsets into the
/// goroutine bookkeeping structures, plus the function-table placement.
#[derive(Clone, Copy, Debug)]
pub struct GoRuntimeInfo {
    /// Version string, null-padded.
    pub version: [u8; 32],
    /// TLS offset of the current-goroutine pointer.
    pub g_offset: u64,
    /// Offset of the stack-low field in the goroutine struct.
    pub stack_base_offset: u64,
    /// Offset of the stack-high field in the goroutine struct.
    pub stack_size_offset: u64,
    /// Function-table base address.
    pub func_tab_base: u64,
    /// Function-table size in bytes.
    pub func_tab_size: u64,
    /// Instruction-alignment quantum.
    pub pc_quantum: u32,
}

impl Default for GoRuntimeInfo {
    /// An all-zero descriptor with no version and the neutral quantum left
    /// zero, as the byte-for-byte zero value of the record.
    fn default() -> (r: Self)
        ensures
            forall|i: int| 0 <= i < 32 ==> r.version[i] == 0,
            r.g_offset == 0,
            r.stack_base_offset == 0,
            r.stack_size_offset == 0,
            r.func_tab_base == 0,
            r.func_tab_size == 0,
            r.pc_quantum == 0,
    {
        GoRuntimeInfo {
            version: [0u8; 32],
            g_offset: 0,
            stack_base_offset: 0,
            stack_size_offset: 0,
            func_tab_base: 0,
            func_tab_size: 0,
            pc_quantum: 0,
        }
    }
}

/// One entry of the flat function table used for symbol resolution.
#[derive(Clone, Copy, Debug, PartialEq, Eq, Structural)]
pub struct FuncInfo {
    /// Function entry point.
    pub entry: u64,
    /// Offset of the name in the string table; 1 marks a cached name.
    pub name_off: u32,
    /// Offset of the file name in the string table; 0 when absent.
    pub file_off: u32,
    /// Base line number; 0 when absent.
    pub line: u32,
}

/// Function information enriched with debug-line data where available.
#[derive(Clone, Debug)]
pub struct EnhancedFuncInfo {
    /// The flat-table record this enriches.
    pub basic: FuncInfo,
    /// Resolved function name, when one was found.
    pub function_name: Option<String>,
    /// Resolved file path, when one was found.
    pub file_path: Option<String>,
    /// Line number for the exact PC, when one was found.
    pub precise_line: Option<u32>,
    /// Column number, when one was found.
    pub column: Option<u32>,
    /// Function end address, when the debug information gives one.
    pub end_address: Option<u64>,
    /// Whether the record came from the debug-line data.
    pub from_dwarf: bool,
}

/// The symbol string `format_symbol` renders for an enriched record:
/// `file:line[:column] name` when a file and line are known, else the bare
/// name, with `[unknown]` for a missing name.
pub open spec fn spec_format_symbol(info: EnhancedFuncInfo) -> Seq<char> {
    let name = if info.function_name is Some {
        info.function_name->Some_0@
    } else {
        "[unknown]"@
    };
    if info.file_path is Some && spec_line_number(info) is Some {
        let head = info.file_path->Some_0@ + ":"@ + spec_dec(
            spec_line_number(info)->Some_0 as u64,
        );
        if info.column is Some {
            head + ":"@ + spec_dec(info.column->Some_0 as u64) + " "@ + name
        } else {
            head + " "@ + name
        }
    } else {
        name
    }
}

/// The line number `get_line_number` reports: the precise line when one is
/// recorded, else the record's base line.
pub open spec fn spec_line_number(info: EnhancedFuncInfo) -> Option<u32> {
    if info.precise_line is Some {
        info.precise_line
    } else {
        Some(info.basic.line)
    }
}

impl EnhancedFuncInfo {
    /// Wraps a flat-table record with no debug enrichment.
    pub fn from_basic(basic: FuncInfo) -> (r: Self)
        ensures
            r.basic == basic,
            r.function_name is None,
            r.file_path is None,
            r.precise_line == Some(basic.line),
            r.column is None,
            r.end_address is None,
            !r.from_dwarf,
    {
        EnhancedFuncInfo {
            basic,
            function_name: None,
            file_path: None,
            precise_line: Some(basic.line),
            column: None,
            end_address: None,
            from_dwarf: false,
        }
    }

    /// Builds a record straight from debug-line data.
    pub fn from_dwarf(
        entry: u64,
        function_name: Option<String>,
        file_path: Option<String>,
        line: Option<u32>,
        column: Option<u32>,
        end_address: Option<u64>,
    ) -> (r: Self)
        ensures
            r.basic.entry == entry,
            r.basic.name_off == 0,
            r.basic.file_off == 0,
            r.basic.line == (if line is Some {
                line->Some_0
            } else {
                0u32
            }),
            r.function_name == function_name,
            r.file_path == file_path,
            r.precise_line == line,
            r.column == column,
            r.end_address == end_address,
            r.from_dwarf,
    {
        let basic_line: u32 = match line {
            Some(l) => l,
            None => 0,
        };
        EnhancedFuncInfo {
            basic: FuncInfo { entry, name_off: 0, file_off: 0, line: basic_line },
            function_name,
            file_path,
            precise_line: line,
            column,
            end_address,
            from_dwarf: true,
        }
    }

    /// The best available function name.
    pub fn get_function_name(&self) -> (r: Option<&str>)
        ensures
            r is Some <==> self.function_name is Some,
            r is Some ==> r->Some_0@ == self.function_name->Some_0@,
    {
        match &self.function_name {
            Some(n) => Some(n.as_str()),
            None => None,
        }
    }

    /// The best available file path.
    pub fn get_file_path(&self) -> (r: Option<&str>)
        ensures
            r is Some <==> self.file_path is Some,
            r is Some ==> r->Some_0@ == self.file_path->Some_0@,
    {
        match &self.file_path {
            Some(p) => Some(p.as_str()),
            None => None,
        }
    }

    /// The best available line number.
    pub fn get_line_number(&self) -> (r: Option<u32>)
        ensures
            r == spec_line_number(*self),
    {
        match self.precise_line {
            Some(l) => Some(l),
            None => Some(self.basic.line),
        }
    }

    /// Renders the record as the one-token symbol string the folded-stack
    /// writer emits.
    pub fn format_symbol(&self) -> (r: String)
        ensures
            r@ == spec_format_symbol(*self),
    {
        let name: String = match &self.function_name {
            Some(n) => n.clone(),
            None => "[unknown]".to_owned(),
        };
        let line = self.get_line_number();
        match (&self.file_path, line) {
            (Some(file), Some(l)) => {
                let mut out = file.clone();
                out.append(":");
                let line_str = dec_string(l as u64);
                out.append(line_str.as_str());
                match self.column {
                    Some(c) => {
                        out.append(":");
                        let col_str = dec_string(c as u64);
                        out.append(col_str.as_str());
                        out.append(" ");
                        out.append(name.as_str());
                        out
                    },
                    None => {
                        out.append(" ");
                        out.append(name.as_str());
                        out
                    },
                }
            },
            _ => name,
        }
    }
}

} // verus!
