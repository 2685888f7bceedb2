use javaminer::classfile::build_music;
use javaminer::classfile::build_packages;
use javaminer::classfile::class_music;
use javaminer::classfile::get_class_name;
use javaminer::classfile::get_code_complexity;
use javaminer::classfile::get_method_complexity;
use javaminer::classfile::get_method_lines;
use javaminer::classfile::get_method_size;
use javaminer::classfile::get_opt_line_number;
use javaminer::classfile::get_string;
use javaminer::classfile::get_total_code_size;
use javaminer::classfile::method_music;
use javaminer::classfile::split_slashes;
use javaminer::classfile::Attribute;
use javaminer::classfile::Class;
use javaminer::classfile::ConstantPoolInfo;
use javaminer::classfile::Instruction;
use javaminer::classfile::LineNumber;
use javaminer::classfile::MeasureMeta;
use javaminer::classfile::Method;
use javaminer::codecity::Building;

fn sample_class(name: &str, field_count: usize, methods: Vec<Method>) -> Class {
    Class {
        constant_pool: vec![
            ConstantPoolInfo::Utf8(name.to_string()),
            ConstantPoolInfo::Class(1),
        ],
        this_class: 2,
        field_count,
        methods,
    }
}

fn method_with_code(code: Vec<Instruction>, attrs: Vec<Attribute>) -> Method {
    Method {
        name_index: 1,
        descriptor_index: 1,
        attributes: vec![Attribute::Code { code, attributes: attrs }],
    }
}

#[test]
fn strings_from_pool() {
    let c = sample_class("org/X", 0, Vec::new());
    assert_eq!(get_string(&c, 1), "org/X");
    assert_eq!(get_string(&c, 2), "?");
    assert_eq!(get_class_name(&c), "org/X");
}

#[test]
fn code_complexity_counts_flow() {
    let code = vec![
        Instruction::IfEq,
        Instruction::Return,
        Instruction::LookupSwitch(3),
        Instruction::TableSwitch(2),
        Instruction::Other,
        Instruction::AThrow,
    ];
    assert_eq!(get_code_complexity(&code), 8);
    assert_eq!(get_code_complexity(&Vec::new()), 0);
}

#[test]
fn method_lines_span_tables() {
    let table = vec![
        LineNumber { start_pc: 0, line_number: 3 },
        LineNumber { start_pc: 9, line_number: 10 },
    ];
    let m = method_with_code(Vec::new(), vec![Attribute::LineNumberTable(table)]);
    assert_eq!(get_method_lines(&m), 7);
    let backwards = vec![
        LineNumber { start_pc: 0, line_number: 10 },
        LineNumber { start_pc: 9, line_number: 3 },
    ];
    let m2 = method_with_code(Vec::new(), vec![Attribute::LineNumberTable(backwards)]);
    assert_eq!(get_method_lines(&m2), 0);
    assert_eq!(get_opt_line_number(None), 0);
}

#[test]
fn method_and_class_sizes() {
    let m = method_with_code(vec![Instruction::Return; 25], Vec::new());
    assert_eq!(get_method_size(&m), 25);
    assert_eq!(get_method_complexity(&m), 25);
    let c = sample_class("org/X", 2, vec![m]);
    assert_eq!(get_total_code_size(&c), 25);
    let b = Building::new(&c);
    assert_eq!(b.size(), (2, 3));
    assert_eq!(b.height(), 3);
}

#[test]
fn split_class_names() {
    let parts = split_slashes("com/example/Foo");
    assert_eq!(parts, vec!["com", "example", "Foo"]);
    assert_eq!(split_slashes("Foo"), vec!["Foo"]);
    assert_eq!(split_slashes(""), vec![""]);
    assert_eq!(split_slashes("a//b"), vec!["a", "", "b"]);
}

#[test]
fn build_packages_groups_by_name() {
    let classes = vec![
        sample_class("org/A", 0, Vec::new()),
        sample_class("org/B", 0, Vec::new()),
        sample_class("com/C", 0, Vec::new()),
    ];
    let root = build_packages(&classes).unwrap();
    assert_eq!(root.name().as_str(), "_root_");
    assert_eq!(root.packages.len(), 2);
    let org = root
        .packages()
        .into_iter()
        .find(|p| p.name().as_str() == "org")
        .unwrap();
    let com = root
        .packages()
        .into_iter()
        .find(|p| p.name().as_str() == "com")
        .unwrap();
    assert_eq!(org.buildings.len(), 2);
    assert_eq!(com.buildings.len(), 1);
    assert_eq!(org.size(), (5, 3));
    assert_eq!(com.size(), (3, 3));
    assert_eq!(root.size(), (7, 9));
}

#[test]
fn music_reads_counts() {
    let m = method_with_code(vec![Instruction::IfEq; 4], Vec::new());
    let c = sample_class("org/X", 5, vec![m]);
    let mm = class_music(&c);
    assert_eq!(mm.name, "org/X");
    assert_eq!(mm.method_count, 1);
    assert_eq!(mm.field_count, 5);
    assert_eq!(mm.code_size, 4);
    assert_eq!(
        mm.methods()[0],
        MeasureMeta { size: 4, lines: 0, complexity: 4 }
    );
    let mm2 = method_music(&c.methods[0]);
    assert_eq!(mm2, MeasureMeta { size: 4, lines: 0, complexity: 4 });
    let all = build_music(&vec![c]);
    assert_eq!(all.len(), 1);
    assert_eq!(all[0].name, "org/X");
}
