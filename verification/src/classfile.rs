//! The library's model of a compiled Java class: exactly the parts that the
//! city and music metrics read — the constant pool entries that carry names,
//! the methods with their code sizes, line tables and branching
//! instructions, and the field count. A caller that parses real class files
//! converts into this model and hands it over.

use vstd::prelude::*;

use crate::codecity::Building;
use crate::codecity::BuildingV;
use crate::codecity::CityError;
use crate::codecity::Package;
use crate::codecity::PackageV;
use crate::codecity::Rect;
use crate::codecity::add_spec;
use crate::codecity::bview;
use crate::codecity::bviews;
use crate::codecity::fresh_pkg;
use crate::codecity::lemma_add_spec_wf;
use crate::codecity::lemma_add_spec_unique;
use crate::codecity::names_unique;
use crate::codecity::pack_spec;
use crate::codecity::pview;
use crate::codecity::pviews;
use crate::codecity::tree_wf;
use vstd::string::StrSliceExecFns;

verus! {

/// A constant pool entry, reduced to what the metrics read: UTF-8 strings,
/// class references, and everything else.
#[derive(Debug)]
pub enum ConstantPoolInfo {
    Utf8(String),
    Class(u16),
    Other,
}

/// One line number table entry.
#[derive(Debug, Clone, Copy, PartialEq, Eq, Structural)]
pub struct LineNumber {
    pub start_pc: u16,
    pub line_number: u16,
}

/// A bytecode instruction, reduced to what the complexity metric reads:
/// the flow-related opcodes count one each, a switch counts the size of its
/// jump table, and everything else counts nothing.
#[derive(Debug, Clone, Copy, PartialEq, Eq, Structural)]
pub enum Instruction {
    AReturn,
    AThrow,
    DReturn,
    FReturn,
    IfAcmpEq,
    IfAcmpNe,
    IfIcmpEq,
    IfIcmpNe,
    IfIcmpLt,
    IfIcmpGe,
    IfIcmpGt,
    IfIcmpLe,
    IfEq,
    IfNe,
    IfLt,
    IfGe,
    IfGt,
    IfLe,
    IfNonNull,
    IfNull,
    IReturn,
    LReturn,
    Return,
    /// A lookup switch with the given number of jump table entries.
    LookupSwitch(usize),
    /// A table switch with the given number of jump table entries.
    TableSwitch(usize),
    Other,
}

/// A method attribute: a code block with its nested attributes, a line
/// number table, or anything else.
#[derive(Debug)]
pub enum Attribute {
    Code { code: Vec<Instruction>, attributes: Vec<Attribute> },
    LineNumberTable(Vec<LineNumber>),
    Other,
}

/// A method: its name and descriptor in the constant pool, and its
/// attributes.
#[derive(Debug)]
pub struct Method {
    pub name_index: u16,
    pub descriptor_index: u16,
    pub attributes: Vec<Attribute>,
}

/// A compiled class, reduced to what the metrics read.
#[derive(Debug)]
pub struct Class {
    pub constant_pool: Vec<ConstantPoolInfo>,
    pub this_class: u16,
    pub field_count: usize,
    pub methods: Vec<Method>,
}

/// Sum a measure over a sequence.
pub open spec fn sum_by<T>(s: Seq<T>, f: spec_fn(T) -> int) -> int
    decreases s.len(),
{
    if s.len() == 0 {
        0
    } else {
        sum_by(s.drop_last(), f) + f(s.last())
    }
}

/// A prefix of a sum of non-negative measures never exceeds the whole sum.
pub proof fn lemma_sum_by_prefix<T>(s: Seq<T>, f: spec_fn(T) -> int, i: int)
    requires
        0 <= i <= s.len(),
        forall|j: int| 0 <= j < s.len() ==> f(#[trigger] s[j]) >= 0,
    ensures
        0 <= sum_by(s.take(i), f) <= sum_by(s, f),
    decreases s.len() - i,
{
    if i == s.len() {
        assert(s.take(i) =~= s);
        lemma_sum_by_nonneg(s, f);
    } else {
        lemma_sum_by_prefix(s, f, i + 1);
        assert(s.take(i + 1).drop_last() =~= s.take(i));
        assert(s.take(i + 1).last() == s[i]);
        lemma_sum_by_nonneg(s.take(i), f);
    }
}

pub proof fn lemma_sum_by_nonneg<T>(s: Seq<T>, f: spec_fn(T) -> int)
    requires
        forall|j: int| 0 <= j < s.len() ==> f(#[trigger] s[j]) >= 0,
    ensures
        sum_by(s, f) >= 0,
    decreases s.len(),
{
    if s.len() > 0 {
        assert(forall|j: int| 0 <= j < s.drop_last().len() ==> #[trigger] s.drop_last()[j] == s[j]);
        lemma_sum_by_nonneg(s.drop_last(), f);
    }
}

/// The complexity weight of one instruction.
pub open spec fn instr_weight(i: Instruction) -> int {
    match i {
        Instruction::LookupSwitch(n) => n as int,
        Instruction::TableSwitch(n) => n as int,
        Instruction::Other => 0,
        _ => 1,
    }
}

pub open spec fn instr_weightf() -> spec_fn(Instruction) -> int {
    |i: Instruction| instr_weight(i)
}

/// The complexity of a code block: the summed weights of its instructions.
pub open spec fn code_complexity_spec(code: Seq<Instruction>) -> int {
    sum_by(code, instr_weightf())
}

/// The size of one attribute: the instruction count of a code block.
pub open spec fn attr_size(a: Attribute) -> int {
    match a {
        Attribute::Code { code, .. } => code@.len() as int,
        _ => 0,
    }
}

pub open spec fn attr_sizef() -> spec_fn(Attribute) -> int {
    |a: Attribute| attr_size(a)
}

/// The size of a method in bytecode instructions, over all its code blocks.
pub open spec fn method_size_spec(m: Method) -> int {
    sum_by(m.attributes@, attr_sizef())
}

pub open spec fn method_sizef() -> spec_fn(Method) -> int {
    |m: Method| method_size_spec(m)
}

/// The total code size of a class: the summed sizes of its methods.
pub open spec fn total_code_size_spec(c: Class) -> int {
    sum_by(c.methods@, method_sizef())
}

/// The line count a line number table contributes: last entry minus first,
/// or nothing when the table is empty or runs backwards.
pub open spec fn table_lines(t: Seq<LineNumber>) -> int {
    if t.len() == 0 {
        0
    } else if t[0].line_number > t[t.len() - 1].line_number {
        0
    } else {
        t[t.len() - 1].line_number - t[0].line_number
    }
}

/// What one nested attribute of a code block contributes in lines.
pub open spec fn inner_lines(a: Attribute) -> int {
    match a {
        Attribute::LineNumberTable(t) => table_lines(t@),
        _ => 0,
    }
}

pub open spec fn inner_linesf() -> spec_fn(Attribute) -> int {
    |a: Attribute| inner_lines(a)
}

/// What one method attribute contributes in lines: the line tables of a code
/// block, summed.
pub open spec fn attr_lines(a: Attribute) -> int {
    match a {
        Attribute::Code { attributes, .. } => sum_by(attributes@, inner_linesf()),
        _ => 0,
    }
}

pub open spec fn attr_linesf() -> spec_fn(Attribute) -> int {
    |a: Attribute| attr_lines(a)
}

/// The size of a method in source lines, over all its code blocks.
pub open spec fn method_lines_spec(m: Method) -> int {
    sum_by(m.attributes@, attr_linesf())
}

/// What one method attribute contributes in complexity.
pub open spec fn attr_complexity(a: Attribute) -> int {
    match a {
        Attribute::Code { code, .. } => code_complexity_spec(code@),
        _ => 0,
    }
}

pub open spec fn attr_complexityf() -> spec_fn(Attribute) -> int {
    |a: Attribute| attr_complexity(a)
}

/// The complexity of a method, over all its code blocks.
pub open spec fn method_complexity_spec(m: Method) -> int {
    sum_by(m.attributes@, attr_complexityf())
}

/// The pool string at one-based index `i`: the UTF-8 entry's text, or a
/// question mark for any other entry.
pub open spec fn string_at(c: Class, i: int) -> Seq<char> {
    match c.constant_pool@[i - 1] {
        ConstantPoolInfo::Utf8(s) => s@,
        _ => "?"@,
    }
}

/// The class's own name: the string its `this_class` entry points at, or a
/// question mark when the entry is not a class reference.
pub open spec fn class_name_spec(c: Class) -> Seq<char> {
    match c.constant_pool@[c.this_class - 1] {
        ConstantPoolInfo::Class(j) => string_at(c, j as int),
        _ => "?"@,
    }
}

/// The pool indexes the name functions follow stay inside the pool.
pub open spec fn class_wf(c: Class) -> bool {
    &&& 1 <= c.this_class <= c.constant_pool@.len()
    &&& match c.constant_pool@[c.this_class - 1] {
        ConstantPoolInfo::Class(j) => 1 <= j <= c.constant_pool@.len(),
        _ => true,
    }
}

/// One element of a sum of non-negative measures never exceeds the sum.
pub proof fn lemma_sum_by_elt<T>(s: Seq<T>, f: spec_fn(T) -> int, j: int)
    requires
        0 <= j < s.len(),
        forall|m: int| 0 <= m < s.len() ==> f(#[trigger] s[m]) >= 0,
    ensures
        f(s[j]) <= sum_by(s, f),
    decreases s.len(),
{
    assert(forall|m: int| 0 <= m < s.drop_last().len() ==> #[trigger] s.drop_last()[m] == s[m]);
    if j == s.len() - 1 {
        lemma_sum_by_nonneg(s.drop_last(), f);
    } else {
        lemma_sum_by_elt(s.drop_last(), f, j);
    }
}

/// Get a constant from the pool, correcting for the one-based indexes of the
/// class file format.
pub fn get_const(class: &Class, i: usize) -> (r: &ConstantPoolInfo)
    requires
        1 <= i <= class.constant_pool@.len(),
    ensures
        *r == class.constant_pool@[i - 1],
{
    &class.constant_pool[i - 1]
}

/// Get a string from the constant pool; a non-string entry reads as a
/// question mark.
pub fn get_string(class: &Class, index: usize) -> (r: String)
    requires
        1 <= index <= class.constant_pool@.len(),
    ensures
        r@ == string_at(*class, index as int),
{
    match get_const(class, index) {
        ConstantPoolInfo::Utf8(s) => s.clone(),
        _ => "?".to_owned(),
    }
}

/// The class's own slash-separated name, read through its `this_class`
/// constant pool entry.
pub fn get_class_name(class: &Class) -> (r: String)
    requires
        class_wf(*class),
    ensures
        r@ == class_name_spec(*class),
{
    let idx = class.this_class as usize;
    match get_const(class, idx) {
        ConstantPoolInfo::Class(index) => {
            let i = *index as usize;
            get_string(class, i)
        },
        _ => "?".to_owned(),
    }
}

/// The size of a method in bytecode instructions; multiple code blocks sum.
pub fn get_method_size(method: &Method) -> (r: usize)
    requires
        method_size_spec(*method) <= usize::MAX,
    ensures
        r == method_size_spec(*method),
{
    let attrs = &method.attributes;
    let mut sum: usize = 0;
    let mut i: usize = 0;
    while i < attrs.len()
        invariant
            i <= attrs@.len(),
            method_size_spec(*method) <= usize::MAX,
            attrs@ == method.attributes@,
            sum == sum_by(attrs@.take(i as int), attr_sizef()),
        decreases attrs@.len() - i,
    {
        proof {
            lemma_sum_by_prefix(attrs@, attr_sizef(), i + 1);
            assert(attrs@.take(i + 1).drop_last() =~= attrs@.take(i as int));
            assert(attrs@.take(i + 1).last() == attrs@[i as int]);
        }
        match &attrs[i] {
            Attribute::Code { code, .. } => {
                sum = sum + code.len();
            },
            _ => {},
        }
        i = i + 1;
    }
    proof {
        assert(attrs@.take(attrs@.len() as int) =~= attrs@);
    }
    sum
}

/// The line number a table entry carries, zero when there is none.
pub fn get_opt_line_number(line: Option<&LineNumber>) -> (r: u16)
    ensures
        r == match line {
            Option::Some(l) => l.line_number,
            Option::None => 0,
        },
{
    match line {
        Option::Some(l) => l.line_number,
        Option::None => 0,
    }
}

/// What one line number table contributes: its line span, zero when empty
/// or running backwards.
fn table_line_span(t: &Vec<LineNumber>) -> (r: u16)
    ensures
        r == table_lines(t@),
{
    let end = get_opt_line_number(
        if t.len() > 0 {
            Option::Some(&t[t.len() - 1])
        } else {
            Option::None
        },
    );
    let start = get_opt_line_number(
        if t.len() > 0 {
            Option::Some(&t[0])
        } else {
            Option::None
        },
    );
    if start > end {
        0
    } else {
        end - start
    }
}

/// The size of a method in source lines, from the line number tables of its
/// code blocks; multiple tables and blocks sum.
pub fn get_method_lines(method: &Method) -> (r: u16)
    requires
        method_lines_spec(*method) <= u16::MAX,
    ensures
        r == method_lines_spec(*method),
{
    let attrs = &method.attributes;
    let mut sum: u16 = 0;
    let mut i: usize = 0;
    proof {
        assert forall|j: int| 0 <= j < attrs@.len() implies attr_linesf()(
            #[trigger] attrs@[j],
        ) >= 0 by {
            lemma_attr_lines_nonneg(attrs@[j]);
        }
    }
    while i < attrs.len()
        invariant
            i <= attrs@.len(),
            method_lines_spec(*method) <= u16::MAX,
            attrs@ == method.attributes@,
            forall|j: int| 0 <= j < attrs@.len() ==> attr_linesf()(#[trigger] attrs@[j]) >= 0,
            sum == sum_by(attrs@.take(i as int), attr_linesf()),
        decreases attrs@.len() - i,
    {
        proof {
            lemma_sum_by_prefix(attrs@, attr_linesf(), i + 1);
            assert(attrs@.take(i + 1).drop_last() =~= attrs@.take(i as int));
            assert(attrs@.take(i + 1).last() == attrs@[i as int]);
        }
        match &attrs[i] {
            Attribute::Code { attributes, .. } => {
                let ghost inner_total = sum_by(attributes@, inner_linesf());
                proof {
                    assert forall|j: int| 0 <= j < attributes@.len() implies inner_linesf()(
                        #[trigger] attributes@[j],
                    ) >= 0 by {
                        lemma_inner_lines_nonneg(attributes@[j]);
                    }
                    lemma_sum_by_nonneg(attrs@.take(i as int), attr_linesf());
                }
                let mut isum: u16 = 0;
                let mut k: usize = 0;
                while k < attributes.len()
                    invariant
                        k <= attributes@.len(),
                        inner_total == sum_by(attributes@, inner_linesf()),
                        0 <= sum + inner_total <= u16::MAX,
                        forall|j: int|
                            0 <= j < attributes@.len() ==> inner_linesf()(
                                #[trigger] attributes@[j],
                            ) >= 0,
                        isum == sum_by(attributes@.take(k as int), inner_linesf()),
                    decreases attributes@.len() - k,
                {
                    proof {
                        lemma_sum_by_prefix(attributes@, inner_linesf(), k + 1);
                        assert(attributes@.take(k + 1).drop_last() =~= attributes@.take(k as int));
                        assert(attributes@.take(k + 1).last() == attributes@[k as int]);
                    }
                    match &attributes[k] {
                        Attribute::LineNumberTable(t) => {
                            let span = table_line_span(t);
                            isum = isum + span;
                        },
                        _ => {},
                    }
                    k = k + 1;
                }
                proof {
                    assert(attributes@.take(attributes@.len() as int) =~= attributes@);
                }
                sum = sum + isum;
            },
            _ => {},
        }
        i = i + 1;
    }
    proof {
        assert(attrs@.take(attrs@.len() as int) =~= attrs@);
    }
    sum
}

proof fn lemma_inner_lines_nonneg(a: Attribute)
    ensures
        inner_lines(a) >= 0,
{
}

proof fn lemma_attr_lines_nonneg(a: Attribute)
    ensures
        attr_lines(a) >= 0,
{
    match a {
        Attribute::Code { attributes, .. } => {
            assert forall|j: int| 0 <= j < attributes@.len() implies inner_linesf()(
                #[trigger] attributes@[j],
            ) >= 0 by {
                lemma_inner_lines_nonneg(attributes@[j]);
            }
            lemma_sum_by_nonneg(attributes@, inner_linesf());
        },
        _ => {},
    }
}

proof fn lemma_attr_complexity_nonneg(a: Attribute)
    ensures
        attr_complexity(a) >= 0,
{
    match a {
        Attribute::Code { code, .. } => {
            lemma_sum_by_nonneg(code@, instr_weightf());
        },
        _ => {},
    }
}

/// The complexity of a code block: one per flow-related instruction, the
/// size of the jump table per switch.
pub fn get_code_complexity(code: &Vec<Instruction>) -> (r: u16)
    requires
        code_complexity_spec(code@) <= u16::MAX,
    ensures
        r == code_complexity_spec(code@),
{
    let mut sum: u16 = 0;
    let mut i: usize = 0;
    while i < code.len()
        invariant
            i <= code@.len(),
            code_complexity_spec(code@) <= u16::MAX,
            sum == sum_by(code@.take(i as int), instr_weightf()),
        decreases code@.len() - i,
    {
        proof {
            lemma_sum_by_prefix(code@, instr_weightf(), i + 1);
            assert(code@.take(i + 1).drop_last() =~= code@.take(i as int));
            assert(code@.take(i + 1).last() == code@[i as int]);
            lemma_sum_by_nonneg(code@.take(i as int), instr_weightf());
        }
        let w: u16 = match &code[i] {
            Instruction::LookupSwitch(n) => *n as u16,
            Instruction::TableSwitch(n) => *n as u16,
            Instruction::Other => 0,
            _ => 1,
        };
        sum = sum + w;
        i = i + 1;
    }
    proof {
        assert(code@.take(code@.len() as int) =~= code@);
    }
    sum
}

/// The complexity of a method, over all its code blocks.
pub fn get_method_complexity(method: &Method) -> (r: u16)
    requires
        method_complexity_spec(*method) <= u16::MAX,
    ensures
        r == method_complexity_spec(*method),
{
    let attrs = &method.attributes;
    let mut sum: u16 = 0;
    let mut i: usize = 0;
    proof {
        assert forall|j: int| 0 <= j < attrs@.len() implies attr_complexityf()(
            #[trigger] attrs@[j],
        ) >= 0 by {
            lemma_attr_complexity_nonneg(attrs@[j]);
        }
    }
    while i < attrs.len()
        invariant
            i <= attrs@.len(),
            method_complexity_spec(*method) <= u16::MAX,
            attrs@ == method.attributes@,
            forall|j: int|
                0 <= j < attrs@.len() ==> attr_complexityf()(#[trigger] attrs@[j]) >= 0,
            sum == sum_by(attrs@.take(i as int), attr_complexityf()),
        decreases attrs@.len() - i,
    {
        proof {
            lemma_sum_by_prefix(attrs@, attr_complexityf(), i + 1);
            assert(attrs@.take(i + 1).drop_last() =~= attrs@.take(i as int));
            assert(attrs@.take(i + 1).last() == attrs@[i as int]);
            lemma_sum_by_nonneg(attrs@.take(i as int), attr_complexityf());
        }
        match &attrs[i] {
            Attribute::Code { code, .. } => {
                let c = get_code_complexity(code);
                sum = sum + c;
            },
            _ => {},
        }
        i = i + 1;
    }
    proof {
        assert(attrs@.take(attrs@.len() as int) =~= attrs@);
    }
    sum
}

/// The total code size of a class, over all its methods.
pub fn get_total_code_size(class: &Class) -> (r: usize)
    requires
        total_code_size_spec(*class) <= usize::MAX,
    ensures
        r == total_code_size_spec(*class),
{
    let methods = &class.methods;
    let mut sum: usize = 0;
    let mut i: usize = 0;
    proof {
        assert forall|j: int| 0 <= j < methods@.len() implies method_sizef()(
            #[trigger] methods@[j],
        ) >= 0 by {
            assert forall|m: int| 0 <= m < methods@[j].attributes@.len() implies attr_sizef()(
                #[trigger] methods@[j].attributes@[m],
            ) >= 0 by {}
            lemma_sum_by_nonneg(methods@[j].attributes@, attr_sizef());
        }
    }
    while i < methods.len()
        invariant
            i <= methods@.len(),
            total_code_size_spec(*class) <= usize::MAX,
            methods@ == class.methods@,
            forall|j: int| 0 <= j < methods@.len() ==> method_sizef()(#[trigger] methods@[j]) >= 0,
            sum == sum_by(methods@.take(i as int), method_sizef()),
        decreases methods@.len() - i,
    {
        proof {
            lemma_sum_by_prefix(methods@, method_sizef(), i + 1);
            assert(methods@.take(i + 1).drop_last() =~= methods@.take(i as int));
            assert(methods@.take(i + 1).last() == methods@[i as int]);
            lemma_sum_by_nonneg(methods@.take(i as int), method_sizef());
            lemma_sum_by_elt(methods@, method_sizef(), i as int);
        }
        let ms = get_method_size(&methods[i]);
        sum = sum + ms;
        i = i + 1;
    }
    proof {
        assert(methods@.take(methods@.len() as int) =~= methods@);
    }
    sum
}

/// The casts in `Building::new` stay exact.
pub open spec fn building_ok(c: Class) -> bool {
    &&& class_wf(c)
    &&& c.methods@.len() + 1 <= u16::MAX
    &&& c.field_count + 1 <= u16::MAX
    &&& total_code_size_spec(c) <= u16::MAX
}

/// The building a class becomes: one wider than its method count, one
/// deeper than its field count, a tenth of its code size (and one) tall.
pub open spec fn building_spec(c: Class) -> BuildingV {
    BuildingV {
        name: class_name_spec(c),
        rect: (Rect {
            width: (c.methods@.len() + 1) as u16,
            depth: (c.field_count + 1) as u16,
            pos_w: 0,
            pos_d: 0,
        }),
        height: (total_code_size_spec(c) / 10 + 1) as u16,
    }
}

impl Building {
    /// The building that stands for a class.
    pub fn new(class: &Class) -> (b: Building)
        requires
            building_ok(*class),
        ensures
            bview(b) == building_spec(*class),
    {
        let size = get_total_code_size(class);
        Building {
            name: get_class_name(class),
            rect: Rect::new(class.methods.len() as u16 + 1, class.field_count as u16 + 1),
            height: size as u16 / 10 + 1,
        }
    }
}

/// One measure of music: a method's size, line count and complexity.
#[derive(Debug, Clone, Copy, PartialEq, Eq, Structural)]
pub struct MeasureMeta {
    pub size: usize,
    pub lines: u16,
    pub complexity: u16,
}

/// The musical reading of one class: its name, its gross counts, and one
/// measure per method.
#[derive(Debug)]
pub struct MusicMeta {
    pub name: String,
    pub method_count: usize,
    pub field_count: usize,
    pub code_size: usize,
    pub methods: Vec<MeasureMeta>,
}

impl MusicMeta {
    pub fn methods(&self) -> (r: &Vec<MeasureMeta>)
        ensures
            r@ == self.methods@,
    {
        &self.methods
    }
}

/// The sums behind a method's measure all fit their machine types.
pub open spec fn method_ok(m: Method) -> bool {
    &&& method_size_spec(m) <= usize::MAX
    &&& method_lines_spec(m) <= u16::MAX
    &&& method_complexity_spec(m) <= u16::MAX
}

pub open spec fn measure_spec(m: Method) -> MeasureMeta {
    MeasureMeta {
        size: method_size_spec(m) as usize,
        lines: method_lines_spec(m) as u16,
        complexity: method_complexity_spec(m) as u16,
    }
}

/// The sums behind a class's music all fit their machine types.
pub open spec fn music_ok(c: Class) -> bool {
    &&& class_wf(c)
    &&& total_code_size_spec(c) <= usize::MAX
    &&& forall|i: int| 0 <= i < c.methods@.len() ==> method_ok(#[trigger] c.methods@[i])
}

/// `mm` is the musical reading of `c`.
pub open spec fn music_matches(mm: MusicMeta, c: Class) -> bool {
    &&& mm.name@ == class_name_spec(c)
    &&& mm.method_count == c.methods@.len()
    &&& mm.field_count == c.field_count
    &&& mm.code_size == total_code_size_spec(c)
    &&& mm.methods@ == Seq::new(c.methods@.len(), |i: int| measure_spec(c.methods@[i]))
}

/// The measure of one method.
pub fn method_music(method: &Method) -> (r: MeasureMeta)
    requires
        method_ok(*method),
    ensures
        r == measure_spec(*method),
{
    MeasureMeta {
        size: get_method_size(method),
        lines: get_method_lines(method),
        complexity: get_method_complexity(method),
    }
}

/// The musical reading of one class.
pub fn class_music(class: &Class) -> (r: MusicMeta)
    requires
        music_ok(*class),
    ensures
        music_matches(r, *class),
{
    let mut measures: Vec<MeasureMeta> = Vec::new();
    let mut i: usize = 0;
    while i < class.methods.len()
        invariant
            i <= class.methods@.len(),
            music_ok(*class),
            measures@.len() == i,
            forall|j: int|
                0 <= j < i ==> #[trigger] measures@[j] == measure_spec(class.methods@[j]),
        decreases class.methods@.len() - i,
    {
        let m = method_music(&class.methods[i]);
        measures.push(m);
        i = i + 1;
    }
    proof {
        assert(measures@ =~= Seq::new(class.methods@.len(), |i: int| measure_spec(
            class.methods@[i],
        )));
    }
    MusicMeta {
        name: get_class_name(class),
        method_count: class.methods.len(),
        field_count: class.field_count,
        code_size: get_total_code_size(class),
        methods: measures,
    }
}

/// The musical reading of a set of classes, one entry per class.
pub fn build_music(classes: &Vec<Class>) -> (r: Vec<MusicMeta>)
    requires
        forall|i: int| 0 <= i < classes@.len() ==> music_ok(#[trigger] classes@[i]),
    ensures
        r@.len() == classes@.len(),
        forall|i: int| 0 <= i < r@.len() ==> music_matches(#[trigger] r@[i], classes@[i]),
{
    let mut out: Vec<MusicMeta> = Vec::new();
    let mut i: usize = 0;
    while i < classes.len()
        invariant
            i <= classes@.len(),
            out@.len() == i,
            forall|j: int| 0 <= j < classes@.len() ==> music_ok(#[trigger] classes@[j]),
            forall|j: int| 0 <= j < i ==> music_matches(#[trigger] out@[j], classes@[j]),
        decreases classes@.len() - i,
    {
        let mm = class_music(&classes[i]);
        out.push(mm);
        i = i + 1;
    }
    out
}

/// The first slash in the text, or `-1` if there is none.
pub open spec fn find_slash(s: Seq<char>) -> int
    decreases s.len(),
{
    if s.len() == 0 {
        -1
    } else if s[0] == '/' {
        0
    } else if find_slash(s.drop_first()) < 0 {
        -1
    } else {
        1 + find_slash(s.drop_first())
    }
}

pub proof fn lemma_find_slash(s: Seq<char>)
    ensures
        find_slash(s) < 0 ==> forall|j: int| 0 <= j < s.len() ==> s[j] != '/',
        find_slash(s) >= 0 ==> 0 <= find_slash(s) < s.len() && s[find_slash(s)] == '/' && (
        forall|j: int| 0 <= j < find_slash(s) ==> s[j] != '/'),
    decreases s.len(),
{
    if s.len() > 0 {
        let t = s.drop_first();
        lemma_find_slash(t);
        assert(forall|j: int| 0 <= j < t.len() ==> t[j] == s[j + 1]);
        if s[0] != '/' {
            let r = find_slash(t);
            if r < 0 {
                assert forall|j: int| 0 <= j < s.len() implies s[j] != '/' by {
                    if j > 0 {
                        assert(t[j - 1] != '/');
                    }
                }
            } else {
                assert forall|j: int| 0 <= j < 1 + r implies s[j] != '/' by {
                    if j > 0 {
                        assert(t[j - 1] != '/');
                    }
                }
            }
        }
    }
}

/// The slash-separated segments of a name. Splitting never yields an empty
/// sequence: an empty or slash-free name is one segment.
pub open spec fn split_slashes_spec(s: Seq<char>) -> Seq<Seq<char>>
    decreases s.len(),
    via split_slashes_spec_dec
{
    let k = find_slash(s);
    if k < 0 {
        seq![s]
    } else {
        seq![s.subrange(0, k)] + split_slashes_spec(s.subrange(k + 1, s.len() as int))
    }
}

#[via_fn]
proof fn split_slashes_spec_dec(s: Seq<char>) {
    lemma_find_slash(s);
}

/// Split a name at its slashes.
pub fn split_slashes(s: &str) -> (r: Vec<String>)
    ensures
        r@.map_values(|x: String| x@) == split_slashes_spec(s@),
        r@.len() >= 1,
{
    let n = s.unicode_len();
    let mut out: Vec<String> = Vec::new();
    let mut start: usize = 0;
    let mut i: usize = 0;
    proof {
        assert(out@.map_values(|x: String| x@) =~= Seq::<Seq<char>>::empty());
        assert(s@.skip(0) =~= s@);
    }
    while i < n
        invariant
            start <= i <= n,
            n == s@.len(),
            split_slashes_spec(s@) =~= out@.map_values(|x: String| x@) + split_slashes_spec(
                s@.skip(start as int),
            ),
            forall|m: int| start <= m < i ==> s@[m] != '/',
        decreases n - i,
    {
        let c = s.get_char(i);
        if c == '/' {
            let seg = s.substring_char(start, i);
            out.push(seg.to_owned());
            proof {
                let t = s@.skip(start as int);
                lemma_find_slash(t);
                assert(t[i - start] == '/');
                assert(forall|m: int| 0 <= m < i - start ==> t[m] == s@[m + start] && s@[m + start]
                    != '/');
                let k = find_slash(t);
                assert(k == i - start) by {
                    if k < 0 {
                    } else if k < i - start {
                        assert(t[k] == '/');
                    }
                }
                assert(t.subrange(0, k) =~= s@.subrange(start as int, i as int));
                assert(t.subrange(k + 1, t.len() as int) =~= s@.skip(i + 1));
                assert(out@.map_values(|x: String| x@) =~= out@.drop_last().map_values(
                    |x: String| x@,
                ).push(s@.subrange(start as int, i as int)));
                assert(out@.drop_last().map_values(|x: String| x@) + (seq![
                    s@.subrange(start as int, i as int),
                ] + split_slashes_spec(s@.skip(i + 1))) =~= out@.map_values(|x: String| x@)
                    + split_slashes_spec(s@.skip(i + 1)));
            }
            start = i + 1;
        }
        i = i + 1;
    }
    let seg = s.substring_char(start, n);
    out.push(seg.to_owned());
    proof {
        let t = s@.skip(start as int);
        lemma_find_slash(t);
        assert(forall|m: int| 0 <= m < t.len() ==> t[m] == s@[m + start] && s@[m + start] != '/');
        assert(find_slash(t) < 0) by {
            if find_slash(t) >= 0 {
                assert(t[find_slash(t)] == '/');
            }
        }
        assert(t =~= s@.subrange(start as int, n as int));
        assert(split_slashes_spec(t) =~= seq![t]);
        assert(out@.map_values(|x: String| x@) =~= out@.drop_last().map_values(|x: String| x@).push(
            t,
        ));
        assert(out@.drop_last().map_values(|x: String| x@) + seq![t] =~= out@.map_values(
            |x: String| x@,
        ));
    }
    out
}

/// The tree the builder grows: every class's building inserted under its
/// split name, in order, into a fresh root.
pub open spec fn build_tree_spec(classes: Seq<Class>) -> PackageV
    decreases classes.len(),
{
    if classes.len() == 0 {
        fresh_pkg("_root_"@)
    } else {
        add_spec(
            build_tree_spec(classes.drop_last()),
            split_slashes_spec(class_name_spec(classes.last())),
            0,
            building_spec(classes.last()),
        )
    }
}

/// Every footprint in the built tree is well sized.
pub proof fn lemma_build_tree_wf(classes: Seq<Class>)
    requires
        forall|i: int| 0 <= i < classes.len() ==> building_ok(#[trigger] classes[i]),
    ensures
        tree_wf(build_tree_spec(classes)),
    decreases classes.len(),
{
    if classes.len() > 0 {
        assert(forall|i: int| 0 <= i < classes.drop_last().len()
            ==> #[trigger] classes.drop_last()[i] == classes[i]);
        lemma_build_tree_wf(classes.drop_last());
        lemma_add_spec_wf(
            build_tree_spec(classes.drop_last()),
            split_slashes_spec(class_name_spec(classes.last())),
            0,
            building_spec(classes.last()),
        );
    }
}

/// The data-model law of the builder: in the tree it grows, no two sibling
/// packages ever share a name.
pub proof fn lemma_build_tree_unique(classes: Seq<Class>)
    ensures
        names_unique(build_tree_spec(classes)),
    decreases classes.len(),
{
    if classes.len() > 0 {
        lemma_build_tree_unique(classes.drop_last());
        lemma_add_spec_unique(
            build_tree_spec(classes.drop_last()),
            split_slashes_spec(class_name_spec(classes.last())),
            0,
            building_spec(classes.last()),
        );
    }
}

/// Group the classes into a package tree by their slash-separated names and
/// pack it. Fails with `LayoutOverflow`, and only then, when a bounding box
/// would outgrow `u16`.
pub fn build_packages(classes: &Vec<Class>) -> (res: Result<Package, CityError>)
    requires
        forall|i: int| 0 <= i < classes@.len() ==> building_ok(#[trigger] classes@[i]),
    ensures
        match res {
            Ok(p) => Option::Some(pview(p)) == pack_spec(build_tree_spec(classes@)),
            Err(e) => e == CityError::LayoutOverflow && pack_spec(build_tree_spec(classes@)) is None,
        },
{
    let mut root = Package::new("_root_");
    proof {
        assert(pviews(root.packages@) =~= Seq::<PackageV>::empty());
        assert(bviews(root.buildings@) =~= Seq::<BuildingV>::empty());
        assert(pview(root) == build_tree_spec(classes@.take(0)));
    }
    let mut i: usize = 0;
    while i < classes.len()
        invariant
            i <= classes@.len(),
            forall|j: int| 0 <= j < classes@.len() ==> building_ok(#[trigger] classes@[j]),
            pview(root) == build_tree_spec(classes@.take(i as int)),
        decreases classes@.len() - i,
    {
        let name = get_class_name(&classes[i]);
        let names = split_slashes(name.as_str());
        let b = Building::new(&classes[i]);
        let r = root.add(&names, b);
        proof {
            if r is Err {
                assert(names@.len() >= 1);
                assert(b.rect.width >= 1 && b.rect.depth >= 1) by {
                    assert(bview(b) == building_spec(classes@[i as int]));
                }
                assert(false);
            }
            assert(classes@.take(i + 1).drop_last() =~= classes@.take(i as int));
            assert(classes@.take(i + 1).last() == classes@[i as int]);
            assert(names@.map_values(|x: String| x@) == split_slashes_spec(
                class_name_spec(classes@[i as int]),
            ));
            assert(pview(root) == build_tree_spec(classes@.take(i + 1)));
        }
        i = i + 1;
    }
    proof {
        assert(classes@.take(classes@.len() as int) =~= classes@);
        lemma_build_tree_wf(classes@);
    }
    match root.pack() {
        Ok(()) => Ok(root),
        Err(e) => Err(e),
    }
}

} // verus!
