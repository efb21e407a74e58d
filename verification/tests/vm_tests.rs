use flowlang::ast::BinaryOperator;
use flowlang::ast::Expression;
use flowlang::ast::Literal;
use flowlang::ast::Program;
use flowlang::ast::Statement;
use flowlang::compiler::compile_program;
use flowlang::error::FlowError;
use flowlang::value::Value;
use flowlang::vm::FloatAnswer;
use flowlang::vm::FloatOperand;
use flowlang::vm::FloatBinOp;
use flowlang::vm::FloatCmpOp;
use flowlang::vm::FloatReq;
use flowlang::vm::OutputEntry;
use flowlang::vm::RunSignal;
use flowlang::vm::VirtualMachine;
use flowlang::error::UnsupportedConstruct;

fn operand(o: &FloatOperand) -> f64 {
    match o {
        FloatOperand::Bits(b) => f64::from_bits(*b),
        FloatOperand::Int(i) => *i as f64,
    }
}

fn answer(req: &FloatReq) -> FloatAnswer {
    match req {
        FloatReq::Arith { op, a, b } => {
            let (x, y) = (operand(a), operand(b));
            let r = match op {
                FloatBinOp::Add => x + y,
                FloatBinOp::Sub => x - y,
                FloatBinOp::Mul => x * y,
                FloatBinOp::Div => x / y,
            };
            FloatAnswer::Bits(r.to_bits())
        }
        FloatReq::Compare { op, a, b } => {
            let (x, y) = (operand(a), operand(b));
            FloatAnswer::Bool(match op {
                FloatCmpOp::Less => x < y,
                FloatCmpOp::LessEqual => x <= y,
                FloatCmpOp::Greater => x > y,
                FloatCmpOp::GreaterEqual => x >= y,
            })
        }
        FloatReq::ApproxEq { a, b } => {
            FloatAnswer::Bool((operand(a) - operand(b)).abs() < f64::EPSILON)
        }
        FloatReq::FormatValue { value } => FloatAnswer::Text(match value {
            Value::Float(bits) => format!("{}", f64::from_bits(*bits)),
            _ => "<value>".to_string(),
        }),
        FloatReq::ToInt { bits } => FloatAnswer::Int(f64::from_bits(*bits) as i64),
        FloatReq::FromInt { value } => FloatAnswer::Bits((*value as f64).to_bits()),
        FloatReq::ParseFloat { text } => {
            FloatAnswer::MaybeBits(text.parse::<f64>().ok().map(|f| f.to_bits()))
        }
    }
}

fn run_program(program: &Program) -> Result<Vec<OutputEntry>, FlowError> {
    let chunks = compile_program(program)?;
    let mut vm = VirtualMachine::new();
    for chunk in chunks {
        vm.load_chunk(chunk);
    }
    loop {
        match vm.run(1_000_000)? {
            RunSignal::Done => return Ok(vm.output),
            RunSignal::StillRunning => continue,
            RunSignal::NeedHost(req) => {
                let ans = answer(&req);
                vm.provide_host_answer(ans)?;
            }
        }
    }
}

fn int_lit(i: i64) -> Expression {
    Expression::Literal(Literal::Integer(i))
}

fn bool_lit(b: bool) -> Expression {
    Expression::Literal(Literal::Boolean(b))
}

fn ident(name: &str) -> Expression {
    Expression::Identifier(name.to_string())
}

fn let_stmt(name: &str, value: Expression) -> Statement {
    Statement::VariableDeclaration { name: name.to_string(), value }
}

fn binary(left: Expression, op: BinaryOperator, right: Expression) -> Expression {
    Expression::Binary {
        left: Box::new(left),
        operator: op,
        right: Box::new(right),
    }
}

#[test]
fn overflow_promotion_end_to_end() {
    // let x be 9223372036854775807; let y be 1; show x + y
    // prints exactly one past the largest machine integer.
    let program = Program {
        statements: vec![
            let_stmt("x", int_lit(i64::MAX)),
            let_stmt("y", int_lit(1)),
            Statement::Show(binary(ident("x"), BinaryOperator::Add, ident("y"))),
        ],
    };
    let output = run_program(&program).expect("runs");
    assert_eq!(output.len(), 1);
    assert!(output[0].newline);
    match &output[0].value {
        Value::BigInteger(b) => {
            assert_eq!(b.to_string(), "9223372036854775808");
        }
        other => panic!("expected a big integer, got {:?}", other),
    }
}

#[test]
fn overflow_promotion_subtract_and_multiply() {
    let program = Program {
        statements: vec![
            Statement::Show(binary(int_lit(i64::MIN), BinaryOperator::Subtract, int_lit(1))),
            Statement::Show(binary(int_lit(i64::MAX), BinaryOperator::Multiply, int_lit(2))),
        ],
    };
    let output = run_program(&program).expect("runs");
    match &output[0].value {
        Value::BigInteger(b) => assert_eq!(b.to_string(), "-9223372036854775809"),
        other => panic!("expected a big integer, got {:?}", other),
    }
    match &output[1].value {
        Value::BigInteger(b) => assert_eq!(b.to_string(), "18446744073709551614"),
        other => panic!("expected a big integer, got {:?}", other),
    }
}

#[test]
fn division_always_yields_float() {
    let program = Program {
        statements: vec![Statement::Show(binary(
            int_lit(7),
            BinaryOperator::Divide,
            int_lit(2),
        ))],
    };
    let output = run_program(&program).expect("runs");
    match &output[0].value {
        Value::Float(bits) => assert_eq!(f64::from_bits(*bits), 3.5),
        other => panic!("expected a float, got {:?}", other),
    }
}

#[test]
fn division_and_modulo_by_zero_fail() {
    let div = Program {
        statements: vec![Statement::Show(binary(
            int_lit(5),
            BinaryOperator::Divide,
            int_lit(0),
        ))],
    };
    assert_eq!(run_program(&div), Err(FlowError::DivisionByZero));
    let rem = Program {
        statements: vec![Statement::Show(binary(
            int_lit(5),
            BinaryOperator::Modulo,
            int_lit(0),
        ))],
    };
    assert_eq!(run_program(&rem), Err(FlowError::DivisionByZero));
}

#[test]
fn jump_patching_skips_untaken_branch() {
    // if false then show 1 end; show 2   -- only 2 is printed.
    let program = Program {
        statements: vec![
            Statement::If {
                condition: bool_lit(false),
                then_branch: vec![Statement::Show(int_lit(1))],
                else_branch: None,
            },
            Statement::Show(int_lit(2)),
        ],
    };
    let output = run_program(&program).expect("runs");
    assert_eq!(output.len(), 1);
    assert_eq!(output[0].value, Value::Integer(2));
}

#[test]
fn if_else_takes_matching_branch() {
    let program = Program {
        statements: vec![Statement::If {
            condition: bool_lit(true),
            then_branch: vec![Statement::Show(int_lit(10))],
            else_branch: Some(vec![Statement::Show(int_lit(20))]),
        }],
    };
    let output = run_program(&program).expect("runs");
    assert_eq!(output.len(), 1);
    assert_eq!(output[0].value, Value::Integer(10));
}

#[test]
fn short_circuit_and_never_calls_right() {
    // def f do show 99 return true end
    // false and f()        -- f is never invoked, nothing is printed.
    let f_decl = Statement::FunctionDeclaration {
        name: "f".to_string(),
        parameters: vec![],
        body: vec![
            Statement::Show(int_lit(99)),
            Statement::Return(Some(bool_lit(true))),
        ],
    };
    let program = Program {
        statements: vec![
            f_decl,
            Statement::Expression(binary(
                bool_lit(false),
                BinaryOperator::And,
                Expression::FunctionCall { name: "f".to_string(), arguments: vec![] },
            )),
        ],
    };
    let output = run_program(&program).expect("runs");
    assert_eq!(output.len(), 0);
}

#[test]
fn short_circuit_or_never_calls_right() {
    let f_decl = Statement::FunctionDeclaration {
        name: "f".to_string(),
        parameters: vec![],
        body: vec![
            Statement::Show(int_lit(99)),
            Statement::Return(Some(bool_lit(true))),
        ],
    };
    let program = Program {
        statements: vec![
            f_decl,
            Statement::Expression(binary(
                bool_lit(true),
                BinaryOperator::Or,
                Expression::FunctionCall { name: "f".to_string(), arguments: vec![] },
            )),
        ],
    };
    let output = run_program(&program).expect("runs");
    assert_eq!(output.len(), 0);
}

#[test]
fn and_or_evaluate_right_when_needed() {
    let program = Program {
        statements: vec![
            Statement::Show(binary(bool_lit(true), BinaryOperator::And, int_lit(5))),
            Statement::Show(binary(bool_lit(false), BinaryOperator::Or, int_lit(6))),
        ],
    };
    let output = run_program(&program).expect("runs");
    assert_eq!(output[0].value, Value::Integer(5));
    assert_eq!(output[1].value, Value::Integer(6));
}

#[test]
fn function_parameter_shadows_global() {
    // let x be 1; def f with x do show x end; f(42); show x
    let program = Program {
        statements: vec![
            let_stmt("x", int_lit(1)),
            Statement::FunctionDeclaration {
                name: "f".to_string(),
                parameters: vec![flowlang::ast::Parameter {
                    name: "x".to_string(),
                    default_value: None,
                    is_variadic: false,
                }],
                body: vec![Statement::Show(ident("x"))],
            },
            Statement::Expression(Expression::FunctionCall {
                name: "f".to_string(),
                arguments: vec![int_lit(42)],
            }),
            Statement::Show(ident("x")),
        ],
    };
    let output = run_program(&program).expect("runs");
    assert_eq!(output.len(), 2);
    // Inside the call the parameter shadows the global; afterwards the
    // global is unchanged.
    assert_eq!(output[0].value, Value::Integer(42));
    assert_eq!(output[1].value, Value::Integer(1));
}

#[test]
fn missing_object_key_yields_null_but_array_bounds_fail() {
    // show ({})["missing"]
    let probe_object = Program {
        statements: vec![Statement::Show(Expression::Index {
            object: Box::new(Expression::Object { properties: vec![] }),
            index: Box::new(Expression::Literal(Literal::String(
                "missing".to_string(),
            ))),
        })],
    };
    let output = run_program(&probe_object).expect("runs");
    assert_eq!(output[0].value, Value::Null);

    // show ([])[0] is an out-of-bounds error.
    let probe_array = Program {
        statements: vec![Statement::Show(Expression::Index {
            object: Box::new(Expression::Array { elements: vec![] }),
            index: Box::new(int_lit(0)),
        })],
    };
    assert_eq!(run_program(&probe_array), Err(FlowError::IndexOutOfBounds));
}

#[test]
fn while_loop_accumulates() {
    // let i be 0; let sum be 0; while i < 5: sum = sum + i; i = i + 1; show sum
    let program = Program {
        statements: vec![
            let_stmt("i", int_lit(0)),
            let_stmt("sum", int_lit(0)),
            Statement::While {
                condition: binary(ident("i"), BinaryOperator::Less, int_lit(5)),
                body: vec![
                    let_stmt("sum", binary(ident("sum"), BinaryOperator::Add, ident("i"))),
                    let_stmt("i", binary(ident("i"), BinaryOperator::Add, int_lit(1))),
                ],
            },
            Statement::Show(ident("sum")),
        ],
    };
    let output = run_program(&program).expect("runs");
    assert_eq!(output[0].value, Value::Integer(10));
}

#[test]
fn undefined_global_fails() {
    let program = Program {
        statements: vec![Statement::Show(ident("nowhere"))],
    };
    assert_eq!(
        run_program(&program),
        Err(FlowError::UndefinedVariable { name: "nowhere".to_string() })
    );
}

#[test]
fn string_concatenation_and_comparison() {
    let s = |t: &str| Expression::Literal(Literal::String(t.to_string()));
    let program = Program {
        statements: vec![
            Statement::Show(binary(s("Hello"), BinaryOperator::Add, s(", World!"))),
            Statement::Show(binary(s("abc"), BinaryOperator::Less, s("abd"))),
            Statement::Show(binary(s("b"), BinaryOperator::Greater, s("abd"))),
        ],
    };
    let output = run_program(&program).expect("runs");
    assert_eq!(output[0].value, Value::String("Hello, World!".to_string()));
    assert_eq!(output[1].value, Value::Boolean(true));
    assert_eq!(output[2].value, Value::Boolean(true));
}

#[test]
fn builtins_show_len_type_str_int_float() {
    let call = |name: &str, args: Vec<Expression>| Expression::FunctionCall {
        name: name.to_string(),
        arguments: args,
    };
    let s = |t: &str| Expression::Literal(Literal::String(t.to_string()));
    let program = Program {
        statements: vec![
            Statement::Show(call("len", vec![s("four")])),
            Statement::Show(call("type", vec![int_lit(1)])),
            Statement::Show(call("str", vec![int_lit(-42)])),
            Statement::Show(call("int", vec![s("123")])),
            Statement::Show(call("float", vec![int_lit(2)])),
            Statement::Show(call("int", vec![Expression::Literal(Literal::Float(
                (9.9f64).to_bits(),
            ))])),
        ],
    };
    let output = run_program(&program).expect("runs");
    assert_eq!(output[0].value, Value::Integer(4));
    assert_eq!(output[1].value, Value::String("integer".to_string()));
    assert_eq!(output[2].value, Value::String("-42".to_string()));
    assert_eq!(output[3].value, Value::Integer(123));
    assert_eq!(output[4].value, Value::Float((2.0f64).to_bits()));
    assert_eq!(output[5].value, Value::Integer(9));
}

#[test]
fn unsupported_constructs_are_rejected_at_compile_time() {
    let import = Program {
        statements: vec![Statement::Import("m".to_string())],
    };
    assert!(matches!(
        compile_program(&import),
        Err(FlowError::CompilationError { construct: UnsupportedConstruct::Import })
    ));
    let trycatch = Program {
        statements: vec![Statement::TryCatch {
            try_block: vec![],
            catch_variable: "e".to_string(),
            catch_block: vec![],
        }],
    };
    assert!(matches!(
        compile_program(&trycatch),
        Err(FlowError::CompilationError { construct: UnsupportedConstruct::TryCatch })
    ));
}

#[test]
fn for_loop_counts() {
    // for i from 1 to 5 accumulates into a global through addition.
    let program = Program {
        statements: vec![
            let_stmt("sum", int_lit(0)),
            Statement::For {
                variable: "i".to_string(),
                start: int_lit(1),
                end: int_lit(5),
                body: vec![let_stmt(
                    "sum",
                    binary(ident("sum"), BinaryOperator::Add, ident("i")),
                )],
            },
            Statement::Show(ident("sum")),
        ],
    };
    let output = run_program(&program).expect("runs");
    // The loop runs for i = 1, 2, 3, 4.
    assert_eq!(output[0].value, Value::Integer(10));
}

#[test]
fn float_comparison_and_equality() {
    let f = |v: f64| Expression::Literal(Literal::Float(v.to_bits()));
    let program = Program {
        statements: vec![
            Statement::Show(binary(f(1.5), BinaryOperator::Less, int_lit(2))),
            Statement::Show(binary(f(2.0), BinaryOperator::Equal, int_lit(2))),
            Statement::Show(binary(f(1.0), BinaryOperator::NotEqual, f(1.0))),
        ],
    };
    let output = run_program(&program).expect("runs");
    assert_eq!(output[0].value, Value::Boolean(true));
    assert_eq!(output[1].value, Value::Boolean(true));
    assert_eq!(output[2].value, Value::Boolean(false));
}

#[test]
fn lambda_compiles_and_calls() {
    // let g be fn(a) -> a + 1; show g(4)
    let lambda = Expression::Lambda {
        parameters: vec![flowlang::ast::Parameter {
            name: "a".to_string(),
            default_value: None,
            is_variadic: false,
        }],
        body: Box::new(binary(ident("a"), BinaryOperator::Add, int_lit(1))),
    };
    let program = Program {
        statements: vec![
            let_stmt("g", lambda),
            Statement::Show(Expression::FunctionCall {
                name: "g".to_string(),
                arguments: vec![int_lit(4)],
            }),
        ],
    };
    let output = run_program(&program).expect("runs");
    assert_eq!(output[0].value, Value::Integer(5));
}

#[test]
fn object_expression_keeps_last_duplicate_key() {
    // {a: 1, a: 2}["a"] is 2: a repeated key keeps its last binding.
    let obj = Expression::Object {
        properties: vec![
            ("a".to_string(), int_lit(1)),
            ("a".to_string(), int_lit(2)),
        ],
    };
    let program = Program {
        statements: vec![Statement::Show(Expression::Index {
            object: Box::new(obj),
            index: Box::new(Expression::Literal(Literal::String("a".to_string()))),
        })],
    };
    let output = run_program(&program).expect("runs");
    assert_eq!(output[0].value, Value::Integer(2));
}

#[test]
fn property_access_reads_object_fields() {
    let obj = Expression::Object {
        properties: vec![("answer".to_string(), int_lit(42))],
    };
    let program = Program {
        statements: vec![Statement::Show(Expression::PropertyAccess {
            object: Box::new(obj),
            property: "answer".to_string(),
        })],
    };
    let output = run_program(&program).expect("runs");
    assert_eq!(output[0].value, Value::Integer(42));
}

#[test]
fn array_indexing_and_len() {
    let arr = Expression::Array {
        elements: vec![int_lit(10), int_lit(20), int_lit(30)],
    };
    let program = Program {
        statements: vec![
            Statement::Show(Expression::Index {
                object: Box::new(arr.clone_expr()),
                index: Box::new(int_lit(2)),
            }),
            Statement::Show(Expression::FunctionCall {
                name: "len".to_string(),
                arguments: vec![arr.clone_expr()],
            }),
        ],
    };
    let output = run_program(&program).expect("runs");
    assert_eq!(output[0].value, Value::Integer(30));
    assert_eq!(output[1].value, Value::Integer(3));
}

trait CloneExpr {
    fn clone_expr(&self) -> Expression;
}

impl CloneExpr for Expression {
    fn clone_expr(&self) -> Expression {
        match self {
            Expression::Array { elements } => Expression::Array {
                elements: elements.iter().map(|e| e.clone_expr()).collect(),
            },
            Expression::Literal(Literal::Integer(i)) => {
                Expression::Literal(Literal::Integer(*i))
            }
            _ => panic!("clone not needed for this shape"),
        }
    }
}

#[test]
fn negation_promotes_minimum_integer() {
    let program = Program {
        statements: vec![Statement::Show(Expression::Unary {
            operator: flowlang::ast::UnaryOperator::Minus,
            operand: Box::new(int_lit(i64::MIN)),
        })],
    };
    let output = run_program(&program).expect("runs");
    match &output[0].value {
        Value::BigInteger(b) => assert_eq!(b.to_string(), "9223372036854775808"),
        other => panic!("expected a big integer, got {:?}", other),
    }
}

#[test]
fn str_builtin_formats_floats_through_host() {
    let program = Program {
        statements: vec![Statement::Show(Expression::FunctionCall {
            name: "str".to_string(),
            arguments: vec![Expression::Literal(Literal::Float((2.5f64).to_bits()))],
        })],
    };
    let output = run_program(&program).expect("runs");
    assert_eq!(output[0].value, Value::String("2.5".to_string()));
}

#[test]
fn modulo_truncates_toward_zero() {
    let program = Program {
        statements: vec![
            Statement::Show(binary(int_lit(7), BinaryOperator::Modulo, int_lit(3))),
            Statement::Show(binary(int_lit(-7), BinaryOperator::Modulo, int_lit(3))),
            Statement::Show(binary(int_lit(7), BinaryOperator::Modulo, int_lit(-3))),
        ],
    };
    let output = run_program(&program).expect("runs");
    assert_eq!(output[0].value, Value::Integer(1));
    assert_eq!(output[1].value, Value::Integer(-1));
    assert_eq!(output[2].value, Value::Integer(1));
}

#[test]
fn default_and_variadic_parameters_are_rejected() {
    let with_default = Program {
        statements: vec![Statement::FunctionDeclaration {
            name: "f".to_string(),
            parameters: vec![flowlang::ast::Parameter {
                name: "a".to_string(),
                default_value: Some(int_lit(1)),
                is_variadic: false,
            }],
            body: vec![],
        }],
    };
    assert!(matches!(
        compile_program(&with_default),
        Err(FlowError::CompilationError {
            construct: UnsupportedConstruct::DefaultParameter
        })
    ));
    let variadic = Program {
        statements: vec![Statement::FunctionDeclaration {
            name: "f".to_string(),
            parameters: vec![flowlang::ast::Parameter {
                name: "rest".to_string(),
                default_value: None,
                is_variadic: true,
            }],
            body: vec![],
        }],
    };
    assert!(matches!(
        compile_program(&variadic),
        Err(FlowError::CompilationError {
            construct: UnsupportedConstruct::VariadicParameter
        })
    ));
}

#[test]
fn failing_run_preserves_state_at_failure_point() {
    // let x be 1; show nowhere  -- the failure leaves the global intact.
    let program = Program {
        statements: vec![
            let_stmt("x", int_lit(1)),
            Statement::Show(ident("nowhere")),
        ],
    };
    let chunks = compile_program(&program).expect("compiles");
    let mut vm = flowlang::vm::VirtualMachine::new();
    for chunk in chunks {
        vm.load_chunk(chunk);
    }
    let r = vm.run(1_000_000);
    assert_eq!(
        r,
        Err(FlowError::UndefinedVariable { name: "nowhere".to_string() })
    );
    assert_eq!(vm.globals.len(), 1);
    assert_eq!(vm.globals[0].0, "x");
    assert_eq!(vm.globals[0].1, Value::Integer(1));
    assert_eq!(vm.stack.len(), 0);
}
