use peggle::matcher::Grammar;
use peggle::structure::{CollectionInfo, DeriveInfo};

fn accepts(pegex: &str, input: &str) -> bool {
    let info = DeriveInfo::NamedStruct(CollectionInfo {
        name: "TestEmptyNamed".to_string(),
        pegex: pegex.to_string(),
        fields: Vec::new(),
    });
    let grammar = Grammar::compile(&vec![info]).unwrap();
    grammar.parse(0, input, 0).is_ok()
}

#[test]
fn empty_named_struct_match() {
    assert!(accepts("testemptynamed", "testemptynamed"));
}

#[test]
fn empty_named_struct_nomatch() {
    assert!(!accepts("testemptynamed", "incorrect_input"));
}

#[test]
fn prefix_nomatch() {
    assert!(!accepts("testemptynamed", "testemptynamedd"));
}

#[test]
fn empty_match() {
    assert!(accepts("", ""));
}

#[test]
fn empty_nomatch() {
    assert!(!accepts("", " "));
}

#[test]
fn simple_kleenestar_zero_match() {
    assert!(accepts("a*", ""));
}

#[test]
fn simple_kleenestar_zero_nomatch() {
    assert!(!accepts("a*", "b"));
}

#[test]
fn simple_kleenestar_one_match() {
    assert!(accepts("a*", "a"));
}

#[test]
fn simple_kleenestar_one_nomatch() {
    assert!(!accepts("a*", "ab"));
}

#[test]
fn simple_kleenestar_multi_match() {
    assert!(accepts("a*", "aaaaaaaaaaa"));
}

#[test]
fn simple_kleenestar_multi_nomatch() {
    assert!(!accepts("a*", "aaaaaaaaaaab"));
}

#[test]
fn double_kleenestar_zero_zero_match() {
    assert!(accepts("a*b*c", "c"));
}

#[test]
fn double_kleenestar_one_zero_match() {
    assert!(accepts("a*b*c", "ac"));
}

#[test]
fn double_kleenestar_zero_one_match() {
    assert!(accepts("a*b*c", "bc"));
}

#[test]
fn double_kleenestar_one_one_match() {
    assert!(accepts("a*b*c", "abc"));
}

#[test]
fn double_kleenestar_zero_multi_match() {
    assert!(accepts("a*b*c", "bbbbbbbbbbbc"));
}

#[test]
fn double_kleenestar_one_multi_match() {
    assert!(accepts("a*b*c", "abbbbbbbbbbbc"));
}

#[test]
fn double_kleenestar_multi_multi_match() {
    assert!(accepts("a*b*c", "aaaaaaaaaaabbbbbbbbbbbc"));
}

#[test]
fn double_kleenestar_multi_one_match() {
    assert!(accepts("a*b*c", "aaaaaaaaaaabc"));
}

#[test]
fn double_kleenestar_multi_zero_match() {
    assert!(accepts("a*b*c", "aaaaaaaaaaabc"));
}

#[test]
fn double_kleenestar_multi_multi_nomatch() {
    assert!(!accepts("a*b*c", "aaaaaaaaaaabbbbbbbb"));
}

#[test]
fn double_kleenestar_greedy_match() {
    assert!(accepts("a*b*ab", "bbbbbbbbbab"));
}

#[test]
fn double_kleenestar_greedy_nomatch() {
    assert!(!accepts("a*b*ab", "aaaaaaaaaab"));
}

#[test]
fn plus_one_multi_match() {
    assert!(accepts("a+b+c", "abbbbbbc"));
}

#[test]
fn plus_multi_multi_match() {
    assert!(accepts("a+b+c", "aaaaaaabbbbbbc"));
}

#[test]
fn plus_multi_one_match() {
    assert!(accepts("a+b+c", "aaaaaaabc"));
}

#[test]
fn plus_multi_zero_nomatch() {
    assert!(!accepts("a+b+c", "aaaaaaac"));
}

#[test]
fn plus_one_zero_nomatch() {
    assert!(!accepts("a+b+c", "ac"));
}

#[test]
fn plus_zero_multi_nomatch() {
    assert!(!accepts("a+b+c", "bbbbbbc"));
}

#[test]
fn plus_zero_one_nomatch() {
    assert!(!accepts("a+b+c", "bc"));
}

#[test]
fn plus_greedy_nomatch() {
    assert!(!accepts("a+a", "aa"));
}

#[test]
fn question_zero_match() {
    assert!(accepts("a?b", "b"));
}

#[test]
fn question_one_match() {
    assert!(accepts("a?b", "ab"));
}

#[test]
fn question_multi_nomatch() {
    assert!(!accepts("a?b", "aab"));
}

#[test]
fn question_greedy_match() {
    assert!(accepts("b?b", "bb"));
}

#[test]
fn question_greedy_nomatch() {
    assert!(!accepts("b?b", "b"));
}

#[test]
fn range_zero_match() {
    assert!(accepts("a{0,2}b", "b"));
}

#[test]
fn range_two_match() {
    assert!(accepts("a{0,2}b", "aab"));
}

#[test]
fn range_two_nomatch() {
    assert!(!accepts("a{0,2}b", "aaab"));
}

#[test]
fn range_multidigit_samevalue_match() {
    assert!(accepts("a{11,11}b", "aaaaaaaaaaab"));
}

#[test]
fn range_multidigit_nomatch_low() {
    assert!(!accepts("a{11,11}b", "aaaaaaaaaab"));
}

#[test]
fn range_multidigit_nomatch_high() {
    assert!(!accepts("a{11,11}b", "aaaaaaaaaaaab"));
}

#[test]
fn range_singlevalue_match() {
    assert!(accepts("a{13}b", "aaaaaaaaaaaaab"));
}

#[test]
fn range_singlevalue_nomatch_low() {
    assert!(!accepts("a{13}b", "aaaaaaaaaaaab"));
}

#[test]
fn range_singlevalue_nomatch_high() {
    assert!(!accepts("a{13}b", "aaaaaaaaaaaaaab"));
}

#[test]
fn range_upto_match() {
    assert!(accepts("a{,13}b", "aaaaaaaaaaaaab"));
}

#[test]
fn range_upto_low_match() {
    assert!(accepts("a{,13}b", "aaaaaaaab"));
}

#[test]
fn range_upto_nomatch() {
    assert!(!accepts("a{,13}b", "aaaaaaaaaaaaaab"));
}

#[test]
fn range_atleast_match() {
    assert!(accepts("a{13,}b", "aaaaaaaaaaaaab"));
}

#[test]
fn range_atleast_high_match() {
    assert!(accepts("a{13,}b", "aaaaaaaaaaaaaaaaaaaaaaab"));
}

#[test]
fn range_atleast_nomatch() {
    assert!(!accepts("a{13,}b", "aaab"));
}

#[test]
fn or_2choices_first_match() {
    assert!(accepts("a|b", "a"));
}

#[test]
fn or_2choices_second_match() {
    assert!(accepts("a|b", "b"));
}

#[test]
fn or_2choices_nomatch1() {
    assert!(!accepts("a|b", "c"));
}

#[test]
fn or_2choices_nomatch2() {
    assert!(!accepts("a|b", "ab"));
}

#[test]
fn or_3choices_first_match() {
    assert!(accepts("a|bc| ", "a"));
}

#[test]
fn or_3choices_second_match() {
    assert!(accepts("a|bc| ", "bc"));
}

#[test]
fn or_3choices_third_match() {
    assert!(accepts("a|bc| ", " "));
}

#[test]
fn or_3choices_nomatch1() {
    assert!(!accepts("a|bc| ", "c"));
}

#[test]
fn or_3choices_nomatch2() {
    assert!(!accepts("a|bc| ", "a "));
}

#[test]
fn oneof_match1() {
    assert!(accepts("[abcd]", "a"));
}

#[test]
fn oneof_match2() {
    assert!(accepts("[abcd]", "b"));
}

#[test]
fn oneof_match3() {
    assert!(accepts("[abcd]", "c"));
}

#[test]
fn oneof_match4() {
    assert!(accepts("[abcd]", "d"));
}

#[test]
fn oneof_nomatch1() {
    assert!(!accepts("[abcd]", "ab"));
}

#[test]
fn oneof_nomatch2() {
    assert!(!accepts("[abcd]", "e"));
}

#[test]
fn oneof_lowerrange_match1() {
    assert!(accepts("[a-z]", "a"));
}

#[test]
fn oneof_lowerrange_match2() {
    assert!(accepts("[a-z]", "s"));
}

#[test]
fn oneof_lowerrange_match3() {
    assert!(accepts("[a-z]", "z"));
}

#[test]
fn oneof_lowerrange_nomatch1() {
    assert!(!accepts("[a-z]", "ab"));
}

#[test]
fn oneof_lowerrange_nomatch2() {
    assert!(!accepts("[a-z]", "B"));
}

#[test]
fn oneof_upperrange_match1() {
    assert!(accepts("[B-Q]", "B"));
}

#[test]
fn oneof_upperrange_match2() {
    assert!(accepts("[B-Q]", "I"));
}

#[test]
fn oneof_upperrange_match3() {
    assert!(accepts("[B-Q]", "Q"));
}

#[test]
fn oneof_upperrange_nomatch1() {
    assert!(!accepts("[B-Q]", "BC"));
}

#[test]
fn oneof_upperrange_nomatch2() {
    assert!(!accepts("[B-Q]", "R"));
}

#[test]
fn oneof_digitrange_match1() {
    assert!(accepts("[0-9]", "0"));
}

#[test]
fn oneof_digitrange_match2() {
    assert!(accepts("[0-9]", "5"));
}

#[test]
fn oneof_digitrange_match3() {
    assert!(accepts("[0-9]", "9"));
}

#[test]
fn oneof_digitrange_nomatch1() {
    assert!(!accepts("[0-9]", "a"));
}

#[test]
fn oneof_digitrange_nomatch2() {
    assert!(!accepts("[0-9]", "A"));
}

#[test]
fn oneof_dashrangestart_match1() {
    assert!(accepts("[--a]", "-"));
}

#[test]
fn oneof_dashrangestart_match2() {
    assert!(accepts("[--a]", "."));
}

#[test]
fn oneof_dashrangestart_match3() {
    assert!(accepts("[--a]", "5"));
}

#[test]
fn oneof_dashrangestart_match4() {
    assert!(accepts("[--a]", "a"));
}

#[test]
fn oneof_dashrangestart_nomatch1() {
    assert!(!accepts("[--a]", "b"));
}

#[test]
fn oneof_dashrangestart_nomatch2() {
    assert!(!accepts("[--a]", "#"));
}

#[test]
fn oneof_dashstart_match1() {
    assert!(accepts("[-asdf]", "-"));
}

#[test]
fn oneof_dashstart_match2() {
    assert!(accepts("[-asdf]", "a"));
}

#[test]
fn oneof_dashstart_match3() {
    assert!(accepts("[-asdf]", "f"));
}

#[test]
fn oneof_dashstart_nomatch1() {
    assert!(!accepts("[-asdf]", "Q"));
}

#[test]
fn oneof_dashstart_nomatch2() {
    assert!(!accepts("[-asdf]", "["));
}

#[test]
fn oneof_bracketstart_match1() {
    assert!(accepts("[]asdf]", "]"));
}

#[test]
fn oneof_bracketstart_match2() {
    assert!(accepts("[]asdf]", "a"));
}

#[test]
fn oneof_bracketstart_match3() {
    assert!(accepts("[]asdf]", "f"));
}

#[test]
fn oneof_bracketstart_nomatch1() {
    assert!(!accepts("[]asdf]", "Q"));
}

#[test]
fn oneof_bracketstart_nomatch2() {
    assert!(!accepts("[]asdf]", "["));
}

#[test]
fn oneof_bracketrangestart_match1() {
    assert!(accepts("[]-asdf]", "]"));
}

#[test]
fn oneof_bracketrangestart_match2() {
    assert!(accepts("[]-asdf]", "a"));
}

#[test]
fn oneof_bracketrangestart_match3() {
    assert!(accepts("[]-asdf]", "^"));
}

#[test]
fn oneof_bracketrangestart_nomatch1() {
    assert!(!accepts("[]-asdf]", "c"));
}

#[test]
fn oneof_bracketrangestart_nomatch2() {
    assert!(!accepts("[]-asdf]", "["));
}

#[test]
fn oneof_negate_match1() {
    assert!(accepts("[^asdf]", "A"));
}

#[test]
fn oneof_negate_match2() {
    assert!(accepts("[^asdf]", "^"));
}

#[test]
fn oneof_negate_match3() {
    assert!(accepts("[^asdf]", "b"));
}

#[test]
fn oneof_negate_nomatch1() {
    assert!(accepts("[^asdf]", "A"));
}

#[test]
fn oneof_negate_nomatch2() {
    assert!(accepts("[^asdf]", "F"));
}

#[test]
fn oneof_dashrangeend_match1() {
    assert!(accepts("[#--]", "-"));
}

#[test]
fn oneof_dashrangeend_match2() {
    assert!(accepts("[#--]", "#"));
}

#[test]
fn oneof_dashrangeend_match3() {
    assert!(accepts("[#--]", "+"));
}

#[test]
fn oneof_dashrangeend_nomatch1() {
    assert!(!accepts("[#--]", " "));
}

#[test]
fn oneof_dashrangeend_nomatch2() {
    assert!(!accepts("[#--]", "a"));
}

#[test]
fn oneof_dashend_match1() {
    assert!(accepts("[#-]", "-"));
}

#[test]
fn oneof_dashend_match2() {
    assert!(accepts("[#-]", "#"));
}

#[test]
fn oneof_dashend_nomatch1() {
    assert!(!accepts("[#-]", " "));
}

#[test]
fn oneof_dashend_nomatch2() {
    assert!(!accepts("[#-]", "a"));
}

#[test]
fn oneof_dashend_nomatch3() {
    assert!(!accepts("[#-]", "+"));
}

#[test]
fn oneof_bracketdash_match1() {
    assert!(accepts("[]-]", "-"));
}

#[test]
fn oneof_bracketdash_match2() {
    assert!(accepts("[]-]", "]"));
}

#[test]
fn oneof_bracketdash_nomatch1() {
    assert!(!accepts("[]-]", " "));
}

#[test]
fn oneof_bracketdash_nomatch2() {
    assert!(!accepts("[]-]", "a"));
}

#[test]
fn oneof_bracketdash_nomatch3() {
    assert!(!accepts("[]-]", "+"));
}

#[test]
fn oneof_overlappingdashes_match1() {
    assert!(accepts("[A-ZQ-a]", "A"));
}

#[test]
fn oneof_overlappingdashes_match2() {
    assert!(accepts("[A-ZQ-a]", "Q"));
}

#[test]
fn oneof_overlappingdashes_match3() {
    assert!(accepts("[A-ZQ-a]", "Z"));
}

#[test]
fn oneof_overlappingdashes_match4() {
    assert!(accepts("[A-ZQ-a]", "a"));
}

#[test]
fn oneof_overlappingdashes_match5() {
    assert!(accepts("[A-ZQ-a]", "`"));
}

#[test]
fn oneof_overlappingdashes_nomatch1() {
    assert!(!accepts("[A-ZQ-a]", " "));
}

#[test]
fn oneof_overlappingdashes_nomatch2() {
    assert!(!accepts("[A-ZQ-a]", "b"));
}

#[test]
fn oneof_overlappingdashes_nomatch3() {
    assert!(!accepts("[A-ZQ-a]", "-"));
}

#[test]
fn oneof_negateranges_match1() {
    assert!(accepts("[^a-z0-9$%^&]", "*"));
}

#[test]
fn oneof_negateranges_match2() {
    assert!(accepts("[^a-z0-9$%^&]", "("));
}

#[test]
fn oneof_negateranges_match3() {
    assert!(accepts("[^a-z0-9$%^&]", "-"));
}

#[test]
fn oneof_negateranges_nomatch1() {
    assert!(!accepts("[^a-z0-9$%^&]", "&"));
}

#[test]
fn oneof_negateranges_nomatch2() {
    assert!(!accepts("[^a-z0-9$%^&]", "^"));
}

#[test]
fn oneof_negateranges_nomatch3() {
    assert!(!accepts("[^a-z0-9$%^&]", "b"));
}

#[test]
fn oneof_negateranges_nomatch4() {
    assert!(!accepts("[^a-z0-9$%^&]", "9"));
}

#[test]
fn oneof_negatebracket_match1() {
    assert!(accepts("[^]]", "a"));
}

#[test]
fn oneof_negatebracket_match2() {
    assert!(accepts("[^]]", "["));
}

#[test]
fn oneof_negatebracket_match3() {
    assert!(accepts("[^]]", "^"));
}

#[test]
fn oneof_negatebracket_nomatch1() {
    assert!(!accepts("[^]]", "]"));
}

#[test]
fn oneof_negatedash_match1() {
    assert!(accepts("[^-]", "a"));
}

#[test]
fn oneof_negatedash_match2() {
    assert!(accepts("[^-]", "["));
}

#[test]
fn oneof_negatedash_match3() {
    assert!(accepts("[^-]", "^"));
}

#[test]
fn oneof_negatedash_nomatch1() {
    assert!(!accepts("[^-]", "-"));
}
