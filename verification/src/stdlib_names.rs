//! The standard-library function registry consulted by built-in call
//! dispatch: the names of every function the runtime's standard library
//! offers, and a membership test on them.

use vstd::prelude::*;

verus! {

/// The name of the standard-library function at position `i` of the
/// registry, in registration order.
pub open spec fn stdlib_name_at(i: int) -> Seq<char> {
    if i == 0 {
        ("read_file")@
    } else if i == 1 {
        ("write_file")@
    } else if i == 2 {
        ("append_file")@
    } else if i == 3 {
        ("read_lines")@
    } else if i == 4 {
        ("copy_file")@
    } else if i == 5 {
        ("file_exists")@
    } else if i == 6 {
        ("is_directory")@
    } else if i == 7 {
        ("is_file")@
    } else if i == 8 {
        ("create_dir")@
    } else if i == 9 {
        ("remove_path")@
    } else if i == 10 {
        ("list_dir")@
    } else if i == 11 {
        ("file_size")@
    } else if i == 12 {
        ("get_env")@
    } else if i == 13 {
        ("set_env")@
    } else if i == 14 {
        ("remove_env")@
    } else if i == 15 {
        ("get_all_env")@
    } else if i == 16 {
        ("execute_command")@
    } else if i == 17 {
        ("get_current_dir")@
    } else if i == 18 {
        ("change_dir")@
    } else if i == 19 {
        ("get_args")@
    } else if i == 20 {
        ("exit_program")@
    } else if i == 21 {
        ("http_get")@
    } else if i == 22 {
        ("http_post")@
    } else if i == 23 {
        ("http_put")@
    } else if i == 24 {
        ("http_delete")@
    } else if i == 25 {
        ("url_encode")@
    } else if i == 26 {
        ("url_decode")@
    } else if i == 27 {
        ("json_parse")@
    } else if i == 28 {
        ("json_stringify")@
    } else if i == 29 {
        ("hash_string")@
    } else if i == 30 {
        ("md5_hash")@
    } else if i == 31 {
        ("sha256_hash")@
    } else if i == 32 {
        ("base64_encode")@
    } else if i == 33 {
        ("base64_decode")@
    } else if i == 34 {
        ("hex_encode")@
    } else if i == 35 {
        ("hex_decode")@
    } else if i == 36 {
        ("random_int")@
    } else if i == 37 {
        ("random_float")@
    } else if i == 38 {
        ("random_string")@
    } else if i == 39 {
        ("set_random_seed")@
    } else if i == 40 {
        ("generate_uuid")@
    } else {
        Seq::empty()
    }
}

/// Whether `s` names a standard-library function.
pub open spec fn is_stdlib_name(s: Seq<char>) -> bool {
    s == ("read_file")@ || s == ("write_file")@ || s == ("append_file")@ || s == ("read_lines")@ || s == ("copy_file")@ || s == ("file_exists")@ || s == ("is_directory")@ || s == ("is_file")@ || s == ("create_dir")@ || s == ("remove_path")@ || s == ("list_dir")@ || s == ("file_size")@ || s == ("get_env")@ || s == ("set_env")@ || s == ("remove_env")@ || s == ("get_all_env")@ || s == ("execute_command")@ || s == ("get_current_dir")@ || s == ("change_dir")@ || s == ("get_args")@ || s == ("exit_program")@ || s == ("http_get")@ || s == ("http_post")@ || s == ("http_put")@ || s == ("http_delete")@ || s == ("url_encode")@ || s == ("url_decode")@ || s == ("json_parse")@ || s == ("json_stringify")@ || s == ("hash_string")@ || s == ("md5_hash")@ || s == ("sha256_hash")@ || s == ("base64_encode")@ || s == ("base64_decode")@ || s == ("hex_encode")@ || s == ("hex_decode")@ || s == ("random_int")@ || s == ("random_float")@ || s == ("random_string")@ || s == ("set_random_seed")@ || s == ("generate_uuid")@
}

/// The list of all standard-library function names, in registration
/// order.
pub fn get_stdlib_functions() -> (r: Vec<String>)
    ensures
        r@.len() == 41,
        forall|i: int| 0 <= i < r@.len() ==> (#[trigger] r@[i])@ == stdlib_name_at(i),
{
    proof {
        reveal_strlit("read_file");
        reveal_strlit("write_file");
        reveal_strlit("append_file");
        reveal_strlit("read_lines");
        reveal_strlit("copy_file");
        reveal_strlit("file_exists");
        reveal_strlit("is_directory");
        reveal_strlit("is_file");
        reveal_strlit("create_dir");
        reveal_strlit("remove_path");
        reveal_strlit("list_dir");
        reveal_strlit("file_size");
        reveal_strlit("get_env");
        reveal_strlit("set_env");
        reveal_strlit("remove_env");
        reveal_strlit("get_all_env");
        reveal_strlit("execute_command");
        reveal_strlit("get_current_dir");
        reveal_strlit("change_dir");
        reveal_strlit("get_args");
        reveal_strlit("exit_program");
        reveal_strlit("http_get");
        reveal_strlit("http_post");
        reveal_strlit("http_put");
        reveal_strlit("http_delete");
        reveal_strlit("url_encode");
        reveal_strlit("url_decode");
        reveal_strlit("json_parse");
        reveal_strlit("json_stringify");
        reveal_strlit("hash_string");
        reveal_strlit("md5_hash");
        reveal_strlit("sha256_hash");
        reveal_strlit("base64_encode");
        reveal_strlit("base64_decode");
        reveal_strlit("hex_encode");
        reveal_strlit("hex_decode");
        reveal_strlit("random_int");
        reveal_strlit("random_float");
        reveal_strlit("random_string");
        reveal_strlit("set_random_seed");
        reveal_strlit("generate_uuid");
    }
    let mut r: Vec<String> = Vec::new();
    r.push("read_file".to_owned());
    r.push("write_file".to_owned());
    r.push("append_file".to_owned());
    r.push("read_lines".to_owned());
    r.push("copy_file".to_owned());
    r.push("file_exists".to_owned());
    r.push("is_directory".to_owned());
    r.push("is_file".to_owned());
    r.push("create_dir".to_owned());
    r.push("remove_path".to_owned());
    r.push("list_dir".to_owned());
    r.push("file_size".to_owned());
    r.push("get_env".to_owned());
    r.push("set_env".to_owned());
    r.push("remove_env".to_owned());
    r.push("get_all_env".to_owned());
    r.push("execute_command".to_owned());
    r.push("get_current_dir".to_owned());
    r.push("change_dir".to_owned());
    r.push("get_args".to_owned());
    r.push("exit_program".to_owned());
    r.push("http_get".to_owned());
    r.push("http_post".to_owned());
    r.push("http_put".to_owned());
    r.push("http_delete".to_owned());
    r.push("url_encode".to_owned());
    r.push("url_decode".to_owned());
    r.push("json_parse".to_owned());
    r.push("json_stringify".to_owned());
    r.push("hash_string".to_owned());
    r.push("md5_hash".to_owned());
    r.push("sha256_hash".to_owned());
    r.push("base64_encode".to_owned());
    r.push("base64_decode".to_owned());
    r.push("hex_encode".to_owned());
    r.push("hex_decode".to_owned());
    r.push("random_int".to_owned());
    r.push("random_float".to_owned());
    r.push("random_string".to_owned());
    r.push("set_random_seed".to_owned());
    r.push("generate_uuid".to_owned());
    r
}

/// Whether `name` is a standard-library function.
pub fn is_stdlib_function(name: &str) -> (r: bool)
    ensures
        r == is_stdlib_name(name@),
{
    proof {
        reveal_strlit("read_file");
        reveal_strlit("write_file");
        reveal_strlit("append_file");
        reveal_strlit("read_lines");
        reveal_strlit("copy_file");
        reveal_strlit("file_exists");
        reveal_strlit("is_directory");
        reveal_strlit("is_file");
        reveal_strlit("create_dir");
        reveal_strlit("remove_path");
        reveal_strlit("list_dir");
        reveal_strlit("file_size");
        reveal_strlit("get_env");
        reveal_strlit("set_env");
        reveal_strlit("remove_env");
        reveal_strlit("get_all_env");
        reveal_strlit("execute_command");
        reveal_strlit("get_current_dir");
        reveal_strlit("change_dir");
        reveal_strlit("get_args");
        reveal_strlit("exit_program");
        reveal_strlit("http_get");
        reveal_strlit("http_post");
        reveal_strlit("http_put");
        reveal_strlit("http_delete");
        reveal_strlit("url_encode");
        reveal_strlit("url_decode");
        reveal_strlit("json_parse");
        reveal_strlit("json_stringify");
        reveal_strlit("hash_string");
        reveal_strlit("md5_hash");
        reveal_strlit("sha256_hash");
        reveal_strlit("base64_encode");
        reveal_strlit("base64_decode");
        reveal_strlit("hex_encode");
        reveal_strlit("hex_decode");
        reveal_strlit("random_int");
        reveal_strlit("random_float");
        reveal_strlit("random_string");
        reveal_strlit("set_random_seed");
        reveal_strlit("generate_uuid");
    }
    crate::vm::str_eq_lit(name, "read_file") || crate::vm::str_eq_lit(name, "write_file") || crate::vm::str_eq_lit(name, "append_file") || crate::vm::str_eq_lit(name, "read_lines") || crate::vm::str_eq_lit(name, "copy_file") || crate::vm::str_eq_lit(name, "file_exists") || crate::vm::str_eq_lit(name, "is_directory") || crate::vm::str_eq_lit(name, "is_file") || crate::vm::str_eq_lit(name, "create_dir") || crate::vm::str_eq_lit(name, "remove_path") || crate::vm::str_eq_lit(name, "list_dir") || crate::vm::str_eq_lit(name, "file_size") || crate::vm::str_eq_lit(name, "get_env") || crate::vm::str_eq_lit(name, "set_env") || crate::vm::str_eq_lit(name, "remove_env") || crate::vm::str_eq_lit(name, "get_all_env") || crate::vm::str_eq_lit(name, "execute_command") || crate::vm::str_eq_lit(name, "get_current_dir") || crate::vm::str_eq_lit(name, "change_dir") || crate::vm::str_eq_lit(name, "get_args") || crate::vm::str_eq_lit(name, "exit_program") || crate::vm::str_eq_lit(name, "http_get") || crate::vm::str_eq_lit(name, "http_post") || crate::vm::str_eq_lit(name, "http_put") || crate::vm::str_eq_lit(name, "http_delete") || crate::vm::str_eq_lit(name, "url_encode") || crate::vm::str_eq_lit(name, "url_decode") || crate::vm::str_eq_lit(name, "json_parse") || crate::vm::str_eq_lit(name, "json_stringify") || crate::vm::str_eq_lit(name, "hash_string") || crate::vm::str_eq_lit(name, "md5_hash") || crate::vm::str_eq_lit(name, "sha256_hash") || crate::vm::str_eq_lit(name, "base64_encode") || crate::vm::str_eq_lit(name, "base64_decode") || crate::vm::str_eq_lit(name, "hex_encode") || crate::vm::str_eq_lit(name, "hex_decode") || crate::vm::str_eq_lit(name, "random_int") || crate::vm::str_eq_lit(name, "random_float") || crate::vm::str_eq_lit(name, "random_string") || crate::vm::str_eq_lit(name, "set_random_seed") || crate::vm::str_eq_lit(name, "generate_uuid")
}

} // verus!
