use logfold::process;

#[test]
fn test_stack_traces() {
    let input = r#"+                1744 ???  (in Live)  load address 0x104fc4000 + 0x114df74  [0x106111f74]
+                                         1744 ???  (in Live)  load address 0x104fc4000 + 0x115c9c0  [0x1061209c0]
+                                           1744 ???  (in Live)  load address 0x104fc4000 + 0x1e99770  [0x106e5d770]
+                                             1744 ???  (in Live)  load address 0x104fc4000 + 0x1d09b64  [0x106ccdb64]
+                                               1744 ???  (in Live)  load address 0x104fc4000 + 0x121a7e0  [0x1061de7e0]
+                                                 1744 ???  (in Live)  load address 0x104fc4000 + 0x2c21e8  [0x1052861e8]
+                                                   1744 ???  (in Live)  load address 0x104fc4000 + 0x29b458  [0x10525f458]
+                                                     1744 ???  (in Live)  load address 0x104fc4000 + 0x123c3e8  [0x1062003e8]
+                                                       1744 ???  (in Live)  load address 0x104fc4000 + 0x29975c  [0x10525d75c]"#;

    let expected = r#"[9x] + 1744 ??? (in Live) load address <0> + <1> <2>
     <0>: 0x104fc4000 | <1>: 0x114df74, 0x115c9c0, 0x1e99770 | <2>: [0x106111f74], [0x1061209c0], [0x106e5d770]"#;

    assert_eq!(process(input), expected);
}

#[test]
fn test_sshd_auth_logs() {
    let input = r#"Dec 10 07:28:03 LabSZ sshd[24245]: Failed password for root from 112.95.230.3 port 54087 ssh2
Dec 10 07:28:05 LabSZ sshd[24245]: Failed password for root from 112.95.230.3 port 55618 ssh2
Dec 10 07:28:08 LabSZ sshd[24245]: Failed password for root from 112.95.230.3 port 57138 ssh2"#;

    let expected = r#"[3x] Dec 10 <0> LabSZ sshd[24245]: Failed password for root from 112.95.230.3 port <1> ssh2
     <0>: 07:28:03, 07:28:05, 07:28:08 | <1>: 54087, 55618, 57138"#;

    assert_eq!(process(input), expected);
}

#[test]
fn test_mixed_syslog() {
    let input = r#"Jun 15 02:04:59 combo sshd(pam_unix)[20892]: authentication failure; logname= uid=0 euid=0 tty=NODEVssh ruser= rhost=220-135-151-1.hinet-ip.hinet.net user=root
Jun 15 02:04:59 combo sshd(pam_unix)[20892]: authentication failure; logname= uid=0 euid=0 tty=NODEVssh ruser= rhost=220-135-151-1.hinet-ip.hinet.net user=root
Jun 15 02:04:59 combo sshd(pam_unix)[20892]: authentication failure; logname= uid=0 euid=0 tty=NODEVssh ruser= rhost=220-135-151-1.hinet-ip.hinet.net user=root
Jun 15 04:06:18 combo su(pam_unix)[21416]: session opened for user cyrus
Jun 15 04:06:19 combo su(pam_unix)[21416]: session closed for user cyrus"#;

    let expected = r#"[3x] Jun 15 <0> combo sshd(pam_unix)[20892]: authentication failure; logname= uid=0 euid=0 tty=NODEVssh ruser= rhost=220-135-151-1.hinet-ip.hinet.net user=root
     <0>: 02:04:59
[2x] Jun 15 <0> combo su(pam_unix)[21416]: session <1> for user cyrus
     <0>: 04:06:18, 04:06:19 | <1>: opened, closed"#;

    assert_eq!(process(input), expected);
}

#[test]
fn test_merge_one_differing_literal() {
    let input = "job u1 start done now\n\
                 job u2 start done now\n\
                 job u3 start done now\n\
                 job u4 start done now\n\
                 job u5 stop done now\n\
                 job u6 stop done now\n\
                 job u7 stop done now\n\
                 job u8 stop done now";

    let expected = "[8x] job <0> <1> done now\n     <0>: u1, u2, u3 | <1>: start, stop";

    assert_eq!(process(input), expected);
}

#[test]
fn test_empty_input() {
    assert_eq!(process(""), "");
}

#[test]
fn test_single_line_has_no_count_prefix() {
    assert_eq!(process("hello world"), "hello world");
}

#[test]
fn test_tie_break_by_template_string() {
    assert_eq!(process("b\na"), "a\nb");
}

#[test]
fn test_two_digit_count() {
    let mut input = String::new();
    for i in 0..12 {
        if i > 0 {
            input.push('\n');
        }
        input.push_str("alpha beta");
    }
    assert_eq!(process(&input), "[12x] alpha beta");
}

#[test]
fn test_deterministic_repeat() {
    let input = "x 10101 y\nx 20202 y\nz q\nz q";
    let first = process(input);
    let second = process(input);
    assert_eq!(first, second);
}

#[test]
fn test_sample_display_cap_above_ten() {
    let mut input = String::new();
    for i in 0..11 {
        if i > 0 {
            input.push('\n');
        }
        input.push_str(&format!("conn from 10.0.0.9 port 4000{}", i % 10));
    }
    let expected = "[11x] conn from 10.0.0.9 port <0>\n     <0>: 40000, 40001";
    assert_eq!(process(&input), expected);
}

#[test]
fn test_sample_display_cap_above_hundred() {
    let mut input = String::new();
    for i in 0..101 {
        if i > 0 {
            input.push('\n');
        }
        input.push_str(&format!("req id 9000{} ok", i % 7));
    }
    let expected = "[101x] req id <0> ok\n     <0>: 90000";
    assert_eq!(process(&input), expected);
}
