use indexmap::IndexMap;

use cvvc::objects::kvlm::{find_without, kvlm_parse};

#[test]
fn find_without_succeeds() {
    let test_data = [
        45, 45, 45, 45, 45, 66, 69, 71, 73, 78, 32, 80, 71, 80, 32, 83, 73, 71, 78, 65, 84, 85,
        82, 69, 45, 45, 45, 45, 45, 10, 32, 10, 32, 119, 115, 70, 99, 66, 65, 65, 66, 67, 65,
        65, 81, 66, 81, 74, 113, 67, 88, 107, 68, 67, 82, 67, 49, 97, 81, 55, 117, 117, 53, 85,
        104, 108, 65, 65, 65, 79, 75, 115, 81, 65, 69, 83, 57, 43, 119, 53, 47, 89, 114, 72,
        101, 48, 109, 83, 89, 48, 101, 106, 111, 107, 66, 110, 99, 10, 32, 103, 65, 48, 50, 89,
        43, 122, 105, 74, 105, 118, 76, 56, 88, 77, 90, 82, 105, 102, 104, 43, 75, 56, 106, 57,
        55, 114, 67, 88, 119, 98, 87, 53, 85, 82, 73, 101, 47, 43, 104, 90, 115, 57, 48, 120,
        50, 98, 107, 121, 105, 67, 103, 109, 105, 79, 65, 90, 49, 82, 81, 82, 116, 110, 73, 10,
        32, 65, 74, 55, 69, 86, 79, 112, 111, 54, 48, 104, 78, 85, 119, 53, 90, 78, 111, 53,
        54, 78, 107, 108, 57, 122, 80, 113, 104, 112, 85, 69, 119, 97, 66, 85, 79, 67, 57, 78,
        98, 78, 81, 54, 51, 118, 50, 69, 66, 68, 119, 88, 107, 102, 48, 52, 86, 68, 78, 49,
        113, 105, 122, 84, 120, 10, 32, 47, 98, 122, 77, 56, 57, 66, 105, 72, 75, 116, 104, 86,
        76, 101, 105, 48, 56, 97, 82, 90, 104, 75, 115, 89, 111, 85, 80, 43, 69, 57, 111, 74,
        86, 113, 74, 75, 99, 90, 99, 103, 71, 115, 54, 118, 105, 89, 85, 53, 109, 76, 99, 109,
        72, 111, 69, 108, 74, 103, 110, 68, 83, 104, 84, 10, 32, 83, 66, 77, 79, 89, 53, 98,
        106, 101, 107, 109, 86, 101, 69, 84, 82, 82, 55, 89, 121, 53, 74, 77, 89, 86, 54, 89,
        122, 81, 55, 49, 67, 83, 75, 110, 85, 66, 51, 81, 121, 57, 106, 101, 67, 57, 98, 73,
        85, 119, 102, 72, 116, 43, 114, 68, 74, 85, 48, 55, 100, 87, 90, 55, 73, 10, 32, 113,
        65, 76, 88, 78, 108, 90, 85, 67, 72, 122, 100, 107, 99, 119, 118, 72, 105, 104, 77,
        122, 55, 113, 79, 82, 76, 48, 66, 57, 83, 97, 87, 88, 90, 81, 68, 112, 51, 103, 84, 50,
        55, 79, 70, 83, 101, 97, 65, 74, 68, 97, 121, 99, 70, 98, 90, 76, 53, 82, 47, 105, 72,
        48, 109, 10, 32, 107, 113, 104, 53, 53, 73, 120, 70, 97, 97, 119, 79, 53, 111, 101, 70,
        50, 79, 113, 77, 69, 109, 47, 86, 112, 54, 97, 101, 47, 110, 116, 86, 65, 47, 117, 99,
        90, 111, 97, 82, 49, 49, 81, 84, 121, 103, 89, 87, 100, 53, 65, 111, 117, 98, 87, 67,
        90, 51, 43, 99, 87, 75, 69, 81, 10, 32, 54, 104, 80, 100, 83, 85, 82, 55, 43, 105, 99,
        68, 66, 122, 56, 120, 106, 104, 120, 100, 82, 84, 113, 84, 101, 73, 66, 77, 78, 78, 68,
        76, 74, 48, 103, 116, 55, 107, 100, 76, 109, 49, 119, 53, 117, 100, 87, 99, 104, 86,
        99, 56, 75, 87, 75, 90, 112, 81, 85, 110, 111, 102, 88, 98, 10, 32, 57, 72, 66, 57,
        109, 81, 89, 53, 66, 73, 86, 78, 65, 99, 122, 116, 82, 55, 112, 116, 119, 56, 81, 80,
        98, 122, 106, 47, 67, 74, 87, 88, 86, 104, 48, 85, 102, 74, 100, 79, 117, 111, 71, 99,
        87, 120, 68, 119, 76, 81, 47, 90, 77, 86, 86, 83, 90, 84, 99, 81, 56, 101, 67, 67, 10,
        32, 85, 89, 117, 51, 82, 109, 85, 43, 111, 56, 121, 75, 82, 98, 83, 70, 112, 101, 49,
        82, 84, 115, 55, 101, 122, 86, 70, 43, 121, 108, 81, 97, 80, 107, 87, 79, 78, 100, 114,
        72, 117, 75, 82, 70, 77, 119, 43, 114, 99, 120, 43, 83, 97, 99, 56, 98, 90, 53, 86,
        118, 67, 104, 99, 74, 10, 32, 47, 106, 66, 103, 69, 88, 118, 107, 55, 99, 77, 104, 74,
        72, 111, 107, 56, 47, 47, 120, 53, 120, 114, 66, 112, 55, 68, 49, 53, 111, 118, 120,
        82, 57, 107, 109, 56, 56, 99, 122, 89, 115, 121, 50, 104, 122, 82, 117, 107, 69, 113,
        113, 76, 90, 79, 85, 55, 86, 114, 115, 111, 75, 43, 50, 10, 32, 110, 74, 57, 72, 120,
        72, 86, 85, 56, 108, 66, 97, 118, 122, 100, 85, 100, 69, 112, 79, 10, 32, 61, 43, 102,
        88, 53, 10, 32, 45, 45, 45, 45, 45, 69, 78, 68, 32, 80, 71, 80, 32, 83, 73, 71, 78, 65,
        84, 85, 82, 69, 45, 45, 45, 45, 45, 10, 32, 10, 10, 77, 101, 114, 103, 101, 32, 112,
        117, 108, 108, 32, 114, 101, 113, 117, 101, 115, 116, 32, 35, 57, 49, 32, 102, 114,
        111, 109, 32, 99, 97, 105, 116, 108, 105, 110, 115, 97, 108, 116, 47, 98, 117, 103,
        102, 105, 120, 47, 53, 51, 47, 99, 104, 101, 99, 107, 111, 117, 116, 45, 110, 101, 115,
        116, 101, 100, 45, 114, 101, 109, 111, 116, 101, 45, 98, 114, 97, 110, 99, 104, 10, 10,
        73, 115, 115, 117, 101, 32, 35, 53, 51, 32, 67, 104, 101, 99, 107, 32, 111, 117, 116,
        32, 114, 101, 109, 111, 116, 101, 32, 98, 114, 97, 110, 99, 104, 101, 115, 32, 112,
        114, 111, 112, 101, 114, 108, 121,
    ];
    let expected_result = 817;

    let test_output = find_without(&test_data, 10, 32);

    assert_eq!(Some(expected_result), test_output);
}

#[test]
fn kvlm_parse_handles_gpgsig_properly() {
    let test_data = [
        116, 114, 101, 101, 32, 97, 48, 56, 49, 99, 51, 51, 51, 97, 48, 101, 49, 51, 102, 56,
        99, 101, 53, 101, 56, 54, 98, 51, 54, 53, 99, 53, 101, 97, 101, 97, 48, 54, 100, 48,
        50, 55, 49, 52, 101, 10, 112, 97, 114, 101, 110, 116, 32, 52, 49, 56, 55, 100, 98, 49,
        99, 56, 56, 53, 50, 55, 51, 56, 56, 48, 52, 51, 98, 98, 97, 52, 97, 97, 52, 99, 101,
        55, 52, 98, 97, 57, 102, 48, 101, 50, 52, 100, 52, 10, 112, 97, 114, 101, 110, 116, 32,
        57, 57, 98, 97, 50, 97, 55, 49, 55, 98, 102, 48, 101, 101, 50, 56, 101, 55, 54, 98,
        101, 51, 102, 50, 48, 97, 100, 48, 55, 53, 98, 51, 50, 100, 54, 56, 55, 55, 102, 97,
        10, 97, 117, 116, 104, 111, 114, 32, 67, 97, 105, 116, 108, 105, 110, 32, 83, 97, 108,
        116, 32, 60, 52, 56, 50, 50, 53, 56, 55, 53, 43, 99, 97, 105, 116, 108, 105, 110, 115,
        97, 108, 116, 64, 117, 115, 101, 114, 115, 46, 110, 111, 114, 101, 112, 108, 121, 46,
        103, 105, 116, 104, 117, 98, 46, 99, 111, 109, 62, 32, 49, 55, 55, 57, 48, 48, 53, 54,
        57, 57, 32, 43, 48, 49, 48, 48, 10, 99, 111, 109, 109, 105, 116, 116, 101, 114, 32, 71,
        105, 116, 72, 117, 98, 32, 60, 110, 111, 114, 101, 112, 108, 121, 64, 103, 105, 116,
        104, 117, 98, 46, 99, 111, 109, 62, 32, 49, 55, 55, 57, 48, 48, 53, 54, 57, 57, 32, 43,
        48, 49, 48, 48, 10, 103, 112, 103, 115, 105, 103, 32, 45, 45, 45, 45, 45, 66, 69, 71,
        73, 78, 32, 80, 71, 80, 32, 83, 73, 71, 78, 65, 84, 85, 82, 69, 45, 45, 45, 45, 45, 10,
        32, 10, 32, 119, 115, 70, 99, 66, 65, 65, 66, 67, 65, 65, 81, 66, 81, 74, 113, 67, 88,
        107, 68, 67, 82, 67, 49, 97, 81, 55, 117, 117, 53, 85, 104, 108, 65, 65, 65, 79, 75,
        115, 81, 65, 69, 83, 57, 43, 119, 53, 47, 89, 114, 72, 101, 48, 109, 83, 89, 48, 101,
        106, 111, 107, 66, 110, 99, 10, 32, 103, 65, 48, 50, 89, 43, 122, 105, 74, 105, 118,
        76, 56, 88, 77, 90, 82, 105, 102, 104, 43, 75, 56, 106, 57, 55, 114, 67, 88, 119, 98,
        87, 53, 85, 82, 73, 101, 47, 43, 104, 90, 115, 57, 48, 120, 50, 98, 107, 121, 105, 67,
        103, 109, 105, 79, 65, 90, 49, 82, 81, 82, 116, 110, 73, 10, 32, 65, 74, 55, 69, 86,
        79, 112, 111, 54, 48, 104, 78, 85, 119, 53, 90, 78, 111, 53, 54, 78, 107, 108, 57, 122,
        80, 113, 104, 112, 85, 69, 119, 97, 66, 85, 79, 67, 57, 78, 98, 78, 81, 54, 51, 118,
        50, 69, 66, 68, 119, 88, 107, 102, 48, 52, 86, 68, 78, 49, 113, 105, 122, 84, 120, 10,
        32, 47, 98, 122, 77, 56, 57, 66, 105, 72, 75, 116, 104, 86, 76, 101, 105, 48, 56, 97,
        82, 90, 104, 75, 115, 89, 111, 85, 80, 43, 69, 57, 111, 74, 86, 113, 74, 75, 99, 90,
        99, 103, 71, 115, 54, 118, 105, 89, 85, 53, 109, 76, 99, 109, 72, 111, 69, 108, 74,
        103, 110, 68, 83, 104, 84, 10, 32, 83, 66, 77, 79, 89, 53, 98, 106, 101, 107, 109, 86,
        101, 69, 84, 82, 82, 55, 89, 121, 53, 74, 77, 89, 86, 54, 89, 122, 81, 55, 49, 67, 83,
        75, 110, 85, 66, 51, 81, 121, 57, 106, 101, 67, 57, 98, 73, 85, 119, 102, 72, 116, 43,
        114, 68, 74, 85, 48, 55, 100, 87, 90, 55, 73, 10, 32, 113, 65, 76, 88, 78, 108, 90, 85,
        67, 72, 122, 100, 107, 99, 119, 118, 72, 105, 104, 77, 122, 55, 113, 79, 82, 76, 48,
        66, 57, 83, 97, 87, 88, 90, 81, 68, 112, 51, 103, 84, 50, 55, 79, 70, 83, 101, 97, 65,
        74, 68, 97, 121, 99, 70, 98, 90, 76, 53, 82, 47, 105, 72, 48, 109, 10, 32, 107, 113,
        104, 53, 53, 73, 120, 70, 97, 97, 119, 79, 53, 111, 101, 70, 50, 79, 113, 77, 69, 109,
        47, 86, 112, 54, 97, 101, 47, 110, 116, 86, 65, 47, 117, 99, 90, 111, 97, 82, 49, 49,
        81, 84, 121, 103, 89, 87, 100, 53, 65, 111, 117, 98, 87, 67, 90, 51, 43, 99, 87, 75,
        69, 81, 10, 32, 54, 104, 80, 100, 83, 85, 82, 55, 43, 105, 99, 68, 66, 122, 56, 120,
        106, 104, 120, 100, 82, 84, 113, 84, 101, 73, 66, 77, 78, 78, 68, 76, 74, 48, 103, 116,
        55, 107, 100, 76, 109, 49, 119, 53, 117, 100, 87, 99, 104, 86, 99, 56, 75, 87, 75, 90,
        112, 81, 85, 110, 111, 102, 88, 98, 10, 32, 57, 72, 66, 57, 109, 81, 89, 53, 66, 73,
        86, 78, 65, 99, 122, 116, 82, 55, 112, 116, 119, 56, 81, 80, 98, 122, 106, 47, 67, 74,
        87, 88, 86, 104, 48, 85, 102, 74, 100, 79, 117, 111, 71, 99, 87, 120, 68, 119, 76, 81,
        47, 90, 77, 86, 86, 83, 90, 84, 99, 81, 56, 101, 67, 67, 10, 32, 85, 89, 117, 51, 82,
        109, 85, 43, 111, 56, 121, 75, 82, 98, 83, 70, 112, 101, 49, 82, 84, 115, 55, 101, 122,
        86, 70, 43, 121, 108, 81, 97, 80, 107, 87, 79, 78, 100, 114, 72, 117, 75, 82, 70, 77,
        119, 43, 114, 99, 120, 43, 83, 97, 99, 56, 98, 90, 53, 86, 118, 67, 104, 99, 74, 10,
        32, 47, 106, 66, 103, 69, 88, 118, 107, 55, 99, 77, 104, 74, 72, 111, 107, 56, 47, 47,
        120, 53, 120, 114, 66, 112, 55, 68, 49, 53, 111, 118, 120, 82, 57, 107, 109, 56, 56,
        99, 122, 89, 115, 121, 50, 104, 122, 82, 117, 107, 69, 113, 113, 76, 90, 79, 85, 55,
        86, 114, 115, 111, 75, 43, 50, 10, 32, 110, 74, 57, 72, 120, 72, 86, 85, 56, 108, 66,
        97, 118, 122, 100, 85, 100, 69, 112, 79, 10, 32, 61, 43, 102, 88, 53, 10, 32, 45, 45,
        45, 45, 45, 69, 78, 68, 32, 80, 71, 80, 32, 83, 73, 71, 78, 65, 84, 85, 82, 69, 45, 45,
        45, 45, 45, 10, 32, 10, 10, 77, 101, 114, 103, 101, 32, 112, 117, 108, 108, 32, 114,
        101, 113, 117, 101, 115, 116, 32, 35, 57, 49, 32, 102, 114, 111, 109, 32, 99, 97, 105,
        116, 108, 105, 110, 115, 97, 108, 116, 47, 98, 117, 103, 102, 105, 120, 47, 53, 51, 47,
        99, 104, 101, 99, 107, 111, 117, 116, 45, 110, 101, 115, 116, 101, 100, 45, 114, 101,
        109, 111, 116, 101, 45, 98, 114, 97, 110, 99, 104, 10, 10, 73, 115, 115, 117, 101, 32,
        35, 53, 51, 32, 67, 104, 101, 99, 107, 32, 111, 117, 116, 32, 114, 101, 109, 111, 116,
        101, 32, 98, 114, 97, 110, 99, 104, 101, 115, 32, 112, 114, 111, 112, 101, 114, 108,
        121,
    ];
    let mut test_map = IndexMap::<String, Vec<String>>::new();
    let expected_result = "-----BEGIN PGP SIGNATURE-----

wsFcBAABCAAQBQJqCXkDCRC1aQ7uu5UhlAAAOKsQAES9+w5/YrHe0mSY0ejokBnc
gA02Y+ziJivL8XMZRifh+K8j97rCXwbW5URIe/+hZs90x2bkyiCgmiOAZ1RQRtnI
AJ7EVOpo60hNUw5ZNo56Nkl9zPqhpUEwaBUOC9NbNQ63v2EBDwXkf04VDN1qizTx
/bzM89BiHKthVLei08aRZhKsYoUP+E9oJVqJKcZcgGs6viYU5mLcmHoElJgnDShT
SBMOY5bjekmVeETRR7Yy5JMYV6YzQ71CSKnUB3Qy9jeC9bIUwfHt+rDJU07dWZ7I
qALXNlZUCHzdkcwvHihMz7qORL0B9SaWXZQDp3gT27OFSeaAJDaycFbZL5R/iH0m
kqh55IxFaawO5oeF2OqMEm/Vp6ae/ntVA/ucZoaR11QTygYWd5AoubWCZ3+cWKEQ
6hPdSUR7+icDBz8xjhxdRTqTeIBMNNDLJ0gt7kdLm1w5udWchVc8KWKZpQUnofXb
9HB9mQY5BIVNAcztR7ptw8QPbzj/CJWXVh0UfJdOuoGcWxDwLQ/ZMVVSZTcQ8eCC
UYu3RmU+o8yKRbSFpe1RTs7ezVF+ylQaPkWONdrHuKRFMw+rcx+Sac8bZ5VvChcJ
/jBgEXvk7cMhJHok8//x5xrBp7D15ovxR9km88czYsy2hzRukEqqLZOU7VrsoK+2
nJ9HxHVU8lBavzdUdEpO
=+fX5
-----END PGP SIGNATURE-----\n";

    kvlm_parse(&test_data, &mut test_map).unwrap();

    println!("{:?}", test_map);

    let test_output = &test_map["gpgsig"];
    assert_eq!(vec![expected_result], *test_output);
}
