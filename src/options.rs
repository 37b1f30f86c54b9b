use vstd::prelude::*;

verus! {

/// What the compiler produces.
#[derive(PartialEq, Eq, Structural, Debug, Clone, Copy)]
pub enum EmitTarget {
    Assembly,
    ObjectFile,
    Executable,
    LlvmIr,
}

/// How hard the code generator optimizes.
#[derive(PartialEq, Eq, Structural, Debug, Clone, Copy)]
pub enum OptLevel {
    Off,
    Less,
    Standard,
    Aggressive,
}

/// The settings that one invocation is made with.
pub struct CommandLineArguments {
    /// The file to produce; a name that depends on the target when absent.
    pub output_filename: Option<String>,
    /// Interpret the program instead of compiling it.
    pub interpret: bool,
    pub emit_assembly: bool,
    pub only_compile_and_assemble: bool,
    pub emit_llvm: bool,
    pub input_filename: String,
    /// From 0 (none) to 3 (aggressive).
    pub optimization_level: u8,
}

/// The target that the three output flags select; with none of them set,
/// an executable.
pub open spec fn target_of(emit_assembly: bool, only_compile_and_assemble: bool, emit_llvm: bool) -> EmitTarget {
    if emit_assembly {
        EmitTarget::Assembly
    } else if only_compile_and_assemble {
        EmitTarget::ObjectFile
    } else if emit_llvm {
        EmitTarget::LlvmIr
    } else {
        EmitTarget::Executable
    }
}

/// The name of the produced file when none is given.
pub open spec fn default_filename(target: EmitTarget) -> Seq<char> {
    match target {
        EmitTarget::Assembly => "out.asm"@,
        EmitTarget::ObjectFile => "out.o"@,
        EmitTarget::Executable => "a.out"@,
        EmitTarget::LlvmIr => "out.ll"@,
    }
}

pub open spec fn level_of(n: u8) -> OptLevel {
    if n == 0 {
        OptLevel::Off
    } else if n == 1 {
        OptLevel::Less
    } else if n == 2 {
        OptLevel::Standard
    } else {
        OptLevel::Aggressive
    }
}

/// The extension of object files.
pub fn object_file_extension() -> (r: &'static str)
    ensures
        r@ == "o"@,
{
    "o"
}

impl CommandLineArguments {
    /// At most one of the three output flags is set.
    pub open spec fn flags_exclusive(&self) -> bool {
        (self.emit_assembly as int) + (self.only_compile_and_assemble as int) + (self.emit_llvm as int) <= 1
    }

    pub open spec fn target(&self) -> EmitTarget {
        target_of(self.emit_assembly, self.only_compile_and_assemble, self.emit_llvm)
    }

    pub fn emit_target(&self) -> (r: EmitTarget)
        requires
            self.flags_exclusive(),
        ensures
            r == self.target(),
    {
        if self.emit_assembly {
            EmitTarget::Assembly
        } else if self.only_compile_and_assemble {
            EmitTarget::ObjectFile
        } else if self.emit_llvm {
            EmitTarget::LlvmIr
        } else {
            EmitTarget::Executable
        }
    }

    pub fn optimization_level(&self) -> (r: OptLevel)
        requires
            self.optimization_level <= 3,
        ensures
            r == level_of(self.optimization_level),
    {
        match self.optimization_level {
            0 => OptLevel::Off,
            1 => OptLevel::Less,
            2 => OptLevel::Standard,
            _ => OptLevel::Aggressive,
        }
    }

    /// The file to produce: the one given, else the target's default name.
    pub fn output_filename(&self) -> (r: String)
        requires
            self.flags_exclusive(),
        ensures
            self.output_filename is Some ==> r@ == self.output_filename->Some_0@,
            self.output_filename is None ==> r@ == default_filename(self.target()),
    {
        match &self.output_filename {
            Some(name) => name.clone(),
            None => {
                let name = match self.emit_target() {
                    EmitTarget::Assembly => "out.asm",
                    EmitTarget::ObjectFile => "out.o",
                    EmitTarget::Executable => "a.out",
                    EmitTarget::LlvmIr => "out.ll",
                };
                name.to_owned()
            },
        }
    }
}

} // verus!
