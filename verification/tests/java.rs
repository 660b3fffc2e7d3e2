use dsntk_feel_number::{
    evaluate_external_java_function, interpret_response, not_invoked, JavaCall, JavaRequest,
};

fn prepared(signature: &str, arguments: Vec<Result<i32, String>>) -> JavaRequest<i32> {
    match evaluate_external_java_function("java.lang.Math", signature, arguments) {
        JavaCall::Invoke(request) => request,
        JavaCall::Null(reason) => panic!("{}", reason),
    }
}

fn refused(signature: &str, arguments: Vec<Result<i32, String>>) -> String {
    match evaluate_external_java_function("java.lang.Math", signature, arguments) {
        JavaCall::Invoke(_) => panic!("not refused"),
        JavaCall::Null(reason) => reason,
    }
}

#[test]
fn call_is_prepared_from_a_signature() {
    let request = prepared("max( int , long )", vec![Ok(1), Ok(2)]);
    assert_eq!("java.lang.Math", request.class_name);
    assert_eq!("max", request.method_name);
    assert_eq!(vec!["int".to_string(), "long".to_string()], request.parameter_types);
    assert_eq!(vec![1, 2], request.argument_values);
}

#[test]
fn signature_is_trimmed_and_empty_types_are_dropped() {
    let request = prepared(" \u{3000}valueOf ( ,java.lang.String, ,))\t", vec![Ok(7)]);
    assert_eq!("valueOf ", request.method_name);
    assert_eq!(vec!["java.lang.String".to_string()], request.parameter_types);
    let request = prepared("random()", vec![]);
    assert_eq!("random", request.method_name);
    assert!(request.parameter_types.is_empty());
    assert!(request.argument_values.is_empty());
}

#[test]
fn what_follows_a_second_bracket_is_not_read() {
    let request = prepared("f(int)(long, long)", vec![Ok(1)]);
    assert_eq!("f", request.method_name);
    assert_eq!(vec!["int".to_string()], request.parameter_types);
}

#[test]
fn signature_without_parameters_is_refused() {
    assert_eq!("no parameter types in method signature", refused("max", vec![]));
    assert_eq!("no parameter types in method signature", refused("", vec![Ok(1)]));
}

#[test]
fn number_of_arguments_must_match() {
    assert_eq!(
        "the number of parameter types (2) differs from the number of arguments (1)",
        refused("max(int, int)", vec![Ok(1)])
    );
    assert_eq!(
        "the number of parameter types (0) differs from the number of arguments (12)",
        refused("max(", vec![Ok(1); 12])
    );
    assert_eq!(
        "the number of parameter types (1) differs from the number of arguments (2)",
        refused("max(int)", vec![Ok(1), Err("unreached".to_string())])
    );
}

#[test]
fn first_argument_that_cannot_be_passed_gives_the_reason() {
    assert_eq!(
        "first",
        refused("f(a, b, c)", vec![Ok(1), Err("first".to_string()), Err("second".to_string())])
    );
}

#[test]
fn response_is_error_then_data_then_nothing() {
    let data: Option<Result<i32, String>> = Some(Ok(5));
    assert_eq!(Ok(5), interpret_response(None, data.clone()));
    assert_eq!(Err("failed".to_string()), interpret_response(Some("failed".to_string()), data));
    let broken: Option<Result<i32, String>> = Some(Err("no value".to_string()));
    assert_eq!(Err("no value".to_string()), interpret_response(None, broken));
    assert_eq!(Err("no data in response".to_string()), interpret_response::<i32>(None, None));
}

#[test]
fn call_without_transport_names_the_function() {
    let request = prepared("max(int)", vec![Ok(1)]);
    assert_eq!(
        "external Java function 'java.lang.Math.max' was not invoked: this build of \
         dsntk-feel-evaluator was compiled without the 'java-bridge' feature, so it contains no \
         HTTP client",
        not_invoked(&request)
    );
}
