use tapelang::options::{object_file_extension, CommandLineArguments, EmitTarget, OptLevel};

fn arguments(assembly: bool, object: bool, llvm: bool, output: Option<&str>) -> CommandLineArguments {
    CommandLineArguments {
        output_filename: output.map(|s| s.to_string()),
        interpret: false,
        emit_assembly: assembly,
        only_compile_and_assemble: object,
        emit_llvm: llvm,
        input_filename: "hello.bf".to_string(),
        optimization_level: 2,
    }
}

#[test]
fn emit_target_follows_flags() {
    assert_eq!(arguments(false, false, false, None).emit_target(), EmitTarget::Executable);
    assert_eq!(arguments(true, false, false, None).emit_target(), EmitTarget::Assembly);
    assert_eq!(arguments(false, true, false, None).emit_target(), EmitTarget::ObjectFile);
    assert_eq!(arguments(false, false, true, None).emit_target(), EmitTarget::LlvmIr);
}

#[test]
fn default_output_names() {
    assert_eq!(arguments(false, false, false, None).output_filename(), "a.out");
    assert_eq!(arguments(true, false, false, None).output_filename(), "out.asm");
    assert_eq!(arguments(false, true, false, None).output_filename(), "out.o");
    assert_eq!(arguments(false, false, true, None).output_filename(), "out.ll");
}

#[test]
fn given_output_name_wins() {
    assert_eq!(arguments(true, false, false, Some("prog.s")).output_filename(), "prog.s");
}

#[test]
fn optimization_levels() {
    let mut a = arguments(false, false, false, None);
    let expected = [OptLevel::Off, OptLevel::Less, OptLevel::Standard, OptLevel::Aggressive];
    for (n, level) in expected.into_iter().enumerate() {
        a.optimization_level = n as u8;
        assert_eq!(a.optimization_level(), level);
    }
}

#[test]
fn object_files_end_in_o() {
    assert_eq!(object_file_extension(), "o");
}
